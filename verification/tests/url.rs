use para_api::url::{percent_decode, percent_encode, url_dispatch, NativeValue};

#[test]
fn percent_encoding_leaves_the_unreserved_set_alone() {
    assert_eq!(percent_encode("abcXYZ019-_.~"), "abcXYZ019-_.~");
}

#[test]
fn percent_encoding_covers_every_character_that_breaks_a_query_string() {
    assert_eq!(percent_encode("a&b=c?d#e"), "a%26b%3Dc%3Fd%23e");
    assert_eq!(percent_encode("a b"), "a%20b");
    assert_eq!(percent_encode("100%"), "100%25");
}

#[test]
fn percent_encoding_is_over_bytes_not_characters() {
    assert_eq!(percent_encode("é"), "%C3%A9");
    assert_eq!(percent_encode("日"), "%E6%97%A5");
}

#[test]
fn decoding_inverts_encoding_over_bytes() {
    assert_eq!(percent_decode("%C3%A9"), "é");
    for original in ["a b", "a&b=c?d#e", "100%", "é日", "", "plain", "a+b"] {
        assert_eq!(
            percent_decode(&percent_encode(original)),
            original,
            "{original}"
        );
    }
}

#[test]
fn decoding_is_total_over_input_a_client_actually_sends() {
    assert_eq!(percent_decode("100% sure"), "100% sure");
    assert_eq!(percent_decode("%zz"), "%zz");
    assert_eq!(percent_decode("%"), "%");
    // A plus is literal here; the form rule belongs to a query parser.
    assert_eq!(percent_decode("a+b"), "a+b");
}

#[test]
fn decoding_inverts_encoding_for_every_single_character() {
    for code in 0..=0x10ffffu32 {
        if let Some(c) = char::from_u32(code) {
            let text = c.to_string();
            assert_eq!(percent_decode(&percent_encode(&text)), text);
        }
    }
}

#[test]
fn encoded_text_holds_only_unreserved_characters_and_percent_signs() {
    let all: String = (0..0x300u32).filter_map(char::from_u32).collect();
    for c in percent_encode(&all).chars() {
        assert!(
            c.is_ascii_alphanumeric() || "-_.~%".contains(c),
            "{c:?} was not encoded"
        );
    }
}

#[test]
fn hexadecimal_digits_of_either_case_decode_and_upper_case_ones_are_written() {
    assert_eq!(percent_decode("%2f%2F"), "//");
    assert_eq!(percent_encode("/\u{ff}"), "%2F%C3%BF");
}

#[test]
fn a_truncated_escape_stays_literal() {
    assert_eq!(percent_decode("%4"), "%4");
    assert_eq!(percent_decode("a%4"), "a%4");
    assert_eq!(percent_decode("%41%"), "A%");
    assert_eq!(percent_decode("%4g"), "%4g");
    assert_eq!(percent_decode("%%41"), "%A");
}

#[test]
fn bytes_that_are_not_utf8_are_replaced_rather_than_dropped() {
    assert_eq!(percent_decode("a%FFb"), "a\u{fffd}b");
    assert_eq!(percent_decode("%C3"), "\u{fffd}");
}

#[test]
fn the_module_encodes_and_decodes_strings_by_name() {
    let args = [NativeValue::Str("a b".to_string())];
    assert_eq!(url_dispatch("encode", &args).unwrap(), "a%20b");
    let args = [NativeValue::Str("a%20b".to_string())];
    assert_eq!(url_dispatch("decode", &args).unwrap(), "a b");
    assert_eq!(url_dispatch("encode", &[NativeValue::Other]).unwrap(), "");
    assert_eq!(url_dispatch("decode", &[NativeValue::Other]).unwrap(), "");
}

#[test]
fn an_unknown_function_of_the_module_is_named_in_the_error() {
    let error = url_dispatch("escape", &[]).unwrap_err();
    assert_eq!(error.message, "module `url` has no function `escape`");
}
