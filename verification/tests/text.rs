use nparser::text::{
    chars_of, is_alphanumeric, is_ascii_whitespace, same_text, stands_at, string_of, text_contains,
    text_ends_with, text_has_word, text_starts_with, to_ascii_lowercase, trim_chars,
};

#[test]
fn classes_of_characters() {
    assert!(is_alphanumeric('q') && is_alphanumeric('Q') && is_alphanumeric('5'));
    assert!(is_alphanumeric('ß') && is_alphanumeric('Ⅷ') && is_alphanumeric('½'));
    assert!(!is_alphanumeric('-') && !is_alphanumeric('\u{2003}'));
    assert!(is_ascii_whitespace('\u{C}') && !is_ascii_whitespace('\u{B}'));
    assert!(!is_ascii_whitespace('\u{A0}'));
}

#[test]
fn lower_case_of_ascii_letters() {
    assert_eq!(to_ascii_lowercase("AbZ-É@[`"), "abz-É@[`");
}

#[test]
fn text_to_characters_and_back() {
    let chars = chars_of("aé日");
    assert_eq!(chars, ['a', 'é', '日']);
    assert_eq!(string_of(&chars), "aé日");
    assert!(stands_at(&chars, 1, "é") && !stands_at(&chars, 1, "é日x") && stands_at(&chars, 3, ""));
}

#[test]
fn comparing_texts() {
    assert!(same_text("ab", "ab") && !same_text("ab", "ac") && !same_text("ab", "abc"));
    assert!(text_starts_with("abc", "ab") && text_starts_with("abc", "") && !text_starts_with("a", "ab"));
    assert!(text_ends_with("abc", "bc") && text_ends_with("abc", "") && !text_ends_with("c", "bc"));
    assert!(text_contains("abc", "b") && text_contains("abc", "") && !text_contains("abc", "ac"));
}

#[test]
fn words_of_a_text() {
    assert!(text_has_word(" one\ttwo ", "one") && text_has_word(" one\ttwo ", "two"));
    assert!(!text_has_word("one two", "on") && !text_has_word("one two", "one two"));
    assert!(!text_has_word("one two", "") && !text_has_word("", ""));
    assert!(text_has_word("a\u{A0}b", "a\u{A0}b"));
}

#[test]
fn trimming_unicode_white_space() {
    let chars = chars_of(" \u{2003}\u{85}x y\u{3000}\n");
    assert_eq!(string_of(trim_chars(&chars)), "x y");
    assert_eq!(string_of(trim_chars(&chars_of(" \t "))), "");
}
