use para_api::text::{decimal_of, holds, join, split_at, trim, white_space};

#[test]
fn white_space_is_what_unicode_says() {
    for code in 0..=0x10ffffu32 {
        if let Some(c) = char::from_u32(code) {
            assert_eq!(white_space(c), c.is_whitespace(), "{code:x}");
        }
    }
}

#[test]
fn trimming_takes_white_space_off_both_ends_only() {
    for text in ["", "  ", " a b ", "\r\n\tx\u{3000}", "é", "\u{85}é é\u{a0}"] {
        assert_eq!(trim(text), text.trim());
    }
}

#[test]
fn splitting_and_joining_undo_each_other() {
    for text in ["", "/", "a", "/a//b/", "é/日"] {
        let pieces = split_at(text, '/');
        let expected: Vec<&str> = text.split('/').collect();
        assert_eq!(pieces, expected);
        assert_eq!(join(&pieces, "/"), text);
    }
}

#[test]
fn searching_finds_a_text_wherever_it_stands() {
    assert!(holds("/pets/{id}", "{id}"));
    assert!(holds("aab", "ab"));
    assert!(holds("é日", "日"));
    assert!(holds("a", ""));
    assert!(!holds("/pets/{ids}", "{id}"));
    assert!(!holds("a", "ab"));
}

#[test]
fn numbers_are_written_in_decimal() {
    for n in [0, 7, 10, 42, 99, 100, 1234567890, u128::MAX] {
        assert_eq!(decimal_of(n), n.to_string());
    }
}
