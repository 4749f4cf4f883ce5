use ocr_lab::text::decimal::{parse_u64, to_digits};
use ocr_lab::text::distance::{edit_distance, levenshtein};
use ocr_lab::text::strings::{
    char_count, chars_of, is_blank, is_substring_of, join, normalize, same, string_of, trim,
};

#[test]
fn levenshtein_known() {
    assert_eq!(levenshtein("", "abc"), 3);
    assert_eq!(levenshtein("abc", ""), 3);
    assert_eq!(levenshtein("abc", "abc"), 0);
    assert_eq!(levenshtein("kitten", "sitting"), 3);
    assert_eq!(levenshtein("试炼那日", "试炼那日"), 0);
    assert_eq!(levenshtein("abc", "abd"), 1);
}

#[test]
fn normalize_strips_all_whitespace() {
    assert_eq!(normalize("a b\nc\t d"), "abcd");
    let s = "x y".to_string();
    assert_eq!(normalize(&s), "xy");
    assert_eq!(s, "x y");
}

#[test]
fn merge_frames_normalize_strips_all_whitespace() {
    assert_eq!(normalize("a b\nc\t d"), "abcd");
    let s = "x y".to_string();
    assert_eq!(normalize(&s), "xy");
    assert_eq!(s, "x y");
}

#[test]
fn is_substring_of_bidirectional() {
    assert!(is_substring_of("abc", "xxabcxx"));
    assert!(is_substring_of("xxabcxx", "abc"));
    assert!(!is_substring_of("abc", "abc"));
    assert!(!is_substring_of("", "abc"));
    assert!(!is_substring_of("abc", ""));
    assert!(!is_substring_of("abc", "def"));
}

#[test]
fn merge_frames_is_substring_of_bidirectional() {
    assert!(is_substring_of("abc", "xxabcxx"));
    assert!(is_substring_of("xxabcxx", "abc"));
    assert!(!is_substring_of("abc", "abc"));
    assert!(!is_substring_of("", "abc"));
    assert!(!is_substring_of("abc", ""));
    assert!(!is_substring_of("abc", "def"));
}

#[test]
fn edit_distance_matches_ts_examples() {
    assert_eq!(edit_distance("陆", "陆执巡"), 2);
    assert_eq!(edit_distance("陆", "这其中是不是有什么误会"), 11);
    assert_eq!(edit_distance("abc", "abc"), 0);
    assert_eq!(edit_distance("a", "b"), 1);
}

#[test]
fn merge_frames_edit_distance_matches_ts_examples() {
    assert_eq!(edit_distance("陆", "陆执巡"), 2);
    assert_eq!(edit_distance("陆", "这其中是不是有什么误会"), 11);
    assert_eq!(edit_distance("abc", "abc"), 0);
    assert_eq!(edit_distance("a", "b"), 1);
}

#[test]
fn distance_is_the_same_both_ways() {
    for (a, b) in [("kitten", "sitting"), ("", "abc"), ("绝不起身", "身"), ("flaw", "lawn")] {
        assert_eq!(levenshtein(a, b), levenshtein(b, a));
        assert_eq!(levenshtein(a, a), 0);
    }
    assert_eq!(levenshtein("flaw", "lawn"), 2);
}

#[test]
fn unicode_white_space_is_white() {
    assert_eq!(normalize("你\u{3000}好\u{a0}！"), "你好！");
    assert_eq!(trim("\u{2003} a b \n"), "a b");
    assert!(is_blank("\u{3000}\t"));
    assert!(is_blank(""));
    assert!(!is_blank(" x "));
}

#[test]
fn strings_and_characters_convert_both_ways() {
    let c = chars_of("a身b");
    assert_eq!(c, vec!['a', '身', 'b']);
    assert_eq!(string_of(&c), "a身b");
    assert_eq!(char_count("a身b"), 3);
    assert!(same("a身", "a身"));
    assert!(!same("a身", "身a"));
}

#[test]
fn joining_puts_the_separator_between() {
    let parts = vec!["a".to_string(), "".to_string(), "c".to_string()];
    assert_eq!(join(&parts, "--"), "a----c");
    assert_eq!(join(&[], "--"), "");
    assert_eq!(join(&parts[..1], "--"), "a");
}

#[test]
fn digits_read_back_as_the_number() {
    for n in [0u64, 7, 10, 1234, 1_000_000, u64::MAX] {
        let d = to_digits(n);
        assert_eq!(d, n.to_string());
        assert_eq!(parse_u64(&chars_of(&d)), Some(n));
    }
}

#[test]
fn numbers_that_are_none_are_refused() {
    assert_eq!(parse_u64(&chars_of("")), None);
    assert_eq!(parse_u64(&chars_of("12x")), None);
    assert_eq!(parse_u64(&chars_of("-1")), None);
    assert_eq!(parse_u64(&chars_of("18446744073709551616")), None);
    assert_eq!(parse_u64(&chars_of("+5")), None);
}
