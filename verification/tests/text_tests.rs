use liquid2::text::{
    char_is_alphabetic, char_is_alphanumeric, char_is_lowercase, char_is_uppercase,
    chars_contain, chars_start_with, chars_vec, concat3, parse_u16_str, push_str,
    string_push, token_ranges_exec, trim_bounds, u16_to_chars, usize_to_string,
};

#[test]
fn unicode_character_classes() {
    assert!(char_is_alphabetic('\u{e9}'));
    assert!(!char_is_alphabetic('1'));
    assert!(char_is_uppercase('A'));
    assert!(!char_is_uppercase('a'));
    assert!(char_is_lowercase('a'));
    assert!(!char_is_lowercase('A'));
    assert!(char_is_alphanumeric('7'));
    assert!(!char_is_alphanumeric('-'));
}

#[test]
fn string_push_appends_one_character() {
    let mut s = String::from("a");
    string_push(&mut s, 'b');
    assert_eq!(s, "ab");
}

#[test]
fn concatenation_and_decimal_text() {
    assert_eq!(concat3("ab", "cd", "ef"), "abcdef");
    let mut s = String::from("x");
    push_str(&mut s, "yz");
    assert_eq!(s, "xyz");
    assert_eq!(usize_to_string(0), "0");
    assert_eq!(usize_to_string(1234), "1234");
    assert_eq!(u16_to_chars(907), vec!['9', '0', '7']);
}

#[test]
fn trimming_and_tokens() {
    assert_eq!(trim_bounds(&chars_vec("  ab c  ")), (2, 6));
    assert_eq!(trim_bounds(&chars_vec("   ")), (3, 3));
    assert_eq!(token_ranges_exec(&chars_vec(" ab  c ")), vec![(1, 3), (5, 6)]);
}

#[test]
fn parsing_u16_like_str_parse() {
    assert_eq!(parse_u16_str(&chars_vec("+5")), Some(5));
    assert_eq!(parse_u16_str(&chars_vec("65535")), Some(65535));
    assert_eq!(parse_u16_str(&chars_vec("65536")), None);
    assert_eq!(parse_u16_str(&chars_vec("")), None);
    assert_eq!(parse_u16_str(&chars_vec("1 2")), None);
}

#[test]
fn searching_for_patterns() {
    let cs = chars_vec("all rights reserved");
    assert!(chars_contain(&cs, "rights"));
    assert!(!chars_contain(&cs, "lefts"));
    assert!(chars_start_with(&cs, "all "));
    assert!(!chars_start_with(&cs, "rights"));
}
