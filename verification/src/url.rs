//! Percent-encoding, byte by byte over UTF-8, and its inverse.
//!
//! A multi-byte character becomes one `%XX` per UTF-8 byte, which is what a server decodes back.
//! A `+` is an ordinary character in both directions: that it can mean a space is a rule of HTML
//! forms, not of URLs.
use crate::text::same;
use vstd::prelude::*;
use vstd::string::*;
use vstd::utf8::*;

verus! {

/// Whether a byte is one of RFC 3986's unreserved characters.
pub open spec fn is_unreserved(byte: u8) -> bool {
    ||| 0x30 <= byte <= 0x39
    ||| 0x41 <= byte <= 0x5a
    ||| 0x61 <= byte <= 0x7a
    ||| byte == 0x2d
    ||| byte == 0x5f
    ||| byte == 0x2e
    ||| byte == 0x7e
}

/// The upper-case hexadecimal digit for a number below sixteen.
pub open spec fn hex_digit(n: int) -> char
    recommends
        0 <= n < 16,
{
    if n < 10 {
        (0x30 + n) as char
    } else {
        (0x37 + n) as char
    }
}

/// The value of a hexadecimal digit of either case, and nothing for any other byte.
pub open spec fn hex_value(byte: u8) -> Option<int> {
    if 0x30 <= byte <= 0x39 {
        Some(byte - 0x30)
    } else if 0x41 <= byte <= 0x46 {
        Some(byte - 0x37)
    } else if 0x61 <= byte <= 0x66 {
        Some(byte - 0x57)
    } else {
        None
    }
}

/// One byte as it stands in a URL: itself if it is unreserved, else `%` and two digits.
pub open spec fn encoded_byte(byte: u8) -> Seq<char> {
    if is_unreserved(byte) {
        seq![byte as char]
    } else {
        seq!['%', hex_digit(byte as int / 16), hex_digit(byte as int % 16)]
    }
}

/// Bytes as they stand in a URL, one after the other.
pub open spec fn encoded(bytes: Seq<u8>) -> Seq<char>
    decreases bytes.len(),
{
    if bytes.len() == 0 {
        Seq::empty()
    } else {
        encoded_byte(bytes.first()) + encoded(bytes.drop_first())
    }
}

/// Whether bytes begin with a `%` and two hexadecimal digits.
pub open spec fn begins_with_escape(bytes: Seq<u8>) -> bool {
    &&& bytes.len() >= 3
    &&& bytes[0] == 0x25
    &&& hex_value(bytes[1]) is Some
    &&& hex_value(bytes[2]) is Some
}

/// Bytes with every `%XX` replaced by the byte that it stands for, and nothing else changed.
pub open spec fn decoded(bytes: Seq<u8>) -> Seq<u8>
    decreases bytes.len(),
{
    if bytes.len() == 0 {
        Seq::empty()
    } else if begins_with_escape(bytes) {
        seq![(hex_value(bytes[1])->0 * 16 + hex_value(bytes[2])->0) as u8] + decoded(bytes.skip(3))
    } else {
        seq![bytes[0]] + decoded(bytes.skip(1))
    }
}

/// What `String::from_utf8_lossy` makes of bytes that are not valid UTF-8.
pub uninterp spec fn repaired_utf8(bytes: Seq<u8>) -> Seq<char>;

/// The text that bytes hold. Where they are not valid UTF-8 the damage is replaced rather than
/// dropped.
pub open spec fn text_of_bytes(bytes: Seq<u8>) -> Seq<char> {
    if valid_utf8(bytes) {
        decode_utf8(bytes)
    } else {
        repaired_utf8(bytes)
    }
}

/// A text percent-encoded.
pub open spec fn percent_encoded(s: Seq<char>) -> Seq<char> {
    encoded(encode_utf8(s))
}

/// A text percent-decoded.
pub open spec fn percent_decoded(s: Seq<char>) -> Seq<char> {
    text_of_bytes(decoded(encode_utf8(s)))
}

/// `String::from_utf8_lossy`: of valid UTF-8 it gives the text, exactly. Of anything else it gives
/// a text that is a function of the bytes alone and that holds U+FFFD where the damage was; how
/// many of them stand for one damaged stretch is left unsaid.
#[verifier::external_body]
fn from_utf8_lossy(bytes: &Vec<u8>) -> (s: String)
    ensures
        s@ == (if valid_utf8(bytes@) {
            decode_utf8(bytes@)
        } else {
            repaired_utf8(bytes@)
        }),
        !valid_utf8(bytes@) ==> s@.contains('\u{fffd}'),
{
    String::from_utf8_lossy(bytes).into_owned()
}

fn unreserved(byte: u8) -> (yes: bool)
    ensures
        yes == is_unreserved(byte),
{
    (0x30 <= byte && byte <= 0x39) || (0x41 <= byte && byte <= 0x5a) || (0x61 <= byte && byte
        <= 0x7a) || byte == 0x2d || byte == 0x5f || byte == 0x2e || byte == 0x7e
}

fn hex_digit_of(n: u8) -> (c: char)
    requires
        n < 16,
    ensures
        c == hex_digit(n as int),
{
    if n < 10 {
        (0x30 + n) as char
    } else {
        (0x37 + n) as char
    }
}

fn hex_value_of(byte: u8) -> (value: Option<u8>)
    ensures
        match value {
            Some(v) => v < 16 && hex_value(byte) == Some(v as int),
            None => hex_value(byte) is None,
        },
{
    if 0x30 <= byte && byte <= 0x39 {
        Some((byte - 0x30) as u8)
    } else if 0x41 <= byte && byte <= 0x46 {
        Some((byte - 0x37) as u8)
    } else if 0x61 <= byte && byte <= 0x66 {
        Some((byte - 0x57) as u8)
    } else {
        None
    }
}

/// RFC 3986 percent-encoding, with the unreserved characters left alone.
pub fn percent_encode(value: &str) -> (out: String)
    ensures
        out@ == percent_encoded(value@),
{
    let bytes: &[u8] = value.as_bytes();
    let mut out: String = String::new();
    assert(bytes@.skip(0) == bytes@);
    for i in 0..bytes.len()
        invariant
            encoded(bytes@) == out@ + encoded(bytes@.skip(i as int)),
    {
        let byte: u8 = bytes[i];
        let ghost before = out@;
        if unreserved(byte) {
            out.push(byte as char);
        } else {
            out.push('%');
            out.push(hex_digit_of(byte / 16));
            out.push(hex_digit_of(byte % 16));
        }
        assert(out@ == before + encoded_byte(byte));
        assert(bytes@.skip(i as int).drop_first() == bytes@.skip(i + 1));
        assert(bytes@.skip(i as int).first() == byte);
    }
    out
}

/// RFC 3986 percent-decoding: every `%XX` back to its byte, and nothing else.
///
/// Total: a `%` that begins no valid escape is a literal `%`, and bytes that are not valid UTF-8
/// are replaced rather than dropped, so that the damage is visible.
pub fn percent_decode(value: &str) -> (out: String)
    ensures
        out@ == percent_decoded(value@),
        !valid_utf8(decoded(encode_utf8(value@))) ==> out@.contains('\u{fffd}'),
        !valid_utf8(decoded(encode_utf8(value@))) ==> out@.contains('\u{fffd}'),
{
    let bytes: &[u8] = value.as_bytes();
    let mut out: Vec<u8> = Vec::new();
    let mut i: usize = 0;
    assert(bytes@.skip(0) == bytes@);
    while i < bytes.len()
        invariant
            i <= bytes@.len(),
            bytes@ == encode_utf8(value@),
            decoded(bytes@) == out@ + decoded(bytes@.skip(i as int)),
        decreases bytes@.len() - i,
    {
        let ghost rest = bytes@.skip(i as int);
        let ghost before = out@;
        assert(rest.skip(1) == bytes@.skip(i + 1));
        let byte: u8 = bytes[i];
        if byte == 0x25 && bytes.len() - i > 2 {
            assert(rest.skip(3) == bytes@.skip(i + 3));
            match (hex_value_of(bytes[i + 1]), hex_value_of(bytes[i + 2])) {
                (Some(high), Some(low)) => {
                    out.push(high * 16 + low);
                    i = i + 3;
                },
                _ => {
                    out.push(0x25);
                    i = i + 1;
                },
            }
        } else {
            out.push(byte);
            i = i + 1;
        }
        assert(decoded(bytes@) == out@ + decoded(bytes@.skip(i as int)));
    }
    assert(out@ == decoded(bytes@));
    from_utf8_lossy(&out)
}

/// An argument of a native call, as far as this module looks into it.
#[derive(Debug)]
pub enum NativeValue {
    /// A string.
    Str(String),
    /// Anything else.
    Other,
}

/// The error for a function that the module does not have.
#[derive(Debug)]
pub struct UnknownFunction {
    pub message: String,
}

/// The message of the error for an unknown function.
pub open spec fn no_function_message(module: Seq<char>, func: Seq<char>) -> Seq<char> {
    "module `"@ + module + "` has no function `"@ + func + "`"@
}

/// `noeta_ext_abi::no_function_error`: its message names the module and the function. Its kind,
/// which is always "unknown name", is not part of the result.
#[verifier::external_body]
fn no_function_error(module: &str, func: &str) -> (message: String)
    ensures
        message@ == no_function_message(module@, func@),
{
    noeta_ext_abi::no_function_error(module, func).message
}

/// What a function of the module makes of its first argument: `work` of a string, and the empty
/// text of anything else.
pub open spec fn applied(work: spec_fn(Seq<char>) -> Seq<char>, arg: NativeValue) -> Seq<char> {
    match arg {
        NativeValue::Str(s) => work(s@),
        NativeValue::Other => Seq::empty(),
    }
}

/// Calls a function of the `url` module by its name: `encode` or `decode`.
pub fn url_dispatch(func: &str, args: &[NativeValue]) -> (result: Result<String, UnknownFunction>)
    requires
        func@ == "encode"@ || func@ == "decode"@ ==> args@.len() > 0,
    ensures
        result is Ok <==> func@ == "encode"@ || func@ == "decode"@,
        func@ == "encode"@ ==> result->Ok_0@ == applied(|s: Seq<char>| percent_encoded(s), args@[0]),
        func@ == "decode"@ ==> result->Ok_0@ == applied(|s: Seq<char>| percent_decoded(s), args@[0]),
        result matches Err(e) ==> e.message@ == no_function_message("url"@, func@),
        result matches Err(e) ==> e.message@ == "module `"@ + "url"@ + "` has no function `"@ + func@
            + "`"@,
        result is Ok && args@[0] is Other ==> result->Ok_0@.len() == 0,
        func@ == "encode"@ && args@[0] is Str ==> result->Ok_0@ == percent_encoded(
            args@[0]->Str_0@,
        ),
        func@ == "decode"@ && args@[0] is Str ==> result->Ok_0@ == percent_decoded(
            args@[0]->Str_0@,
        ),
{
    proof {
        reveal_strlit("encode");
        reveal_strlit("decode");
        assert("encode"@[0] != "decode"@[0]);
    }
    if same(func, "encode") {
        match &args[0] {
            NativeValue::Str(s) => Ok(percent_encode(s.as_str())),
            NativeValue::Other => Ok(String::new()),
        }
    } else if same(func, "decode") {
        match &args[0] {
            NativeValue::Str(s) => Ok(percent_decode(s.as_str())),
            NativeValue::Other => Ok(String::new()),
        }
    } else {
        Err(UnknownFunction { message: no_function_error("url", func) })
    }
}

/// Whether a character is one of RFC 3986's unreserved characters.
pub open spec fn is_unreserved_char(c: char) -> bool {
    c <= '\u{7f}' && is_unreserved(c as u8)
}

proof fn encoded_is_ascii(bytes: Seq<u8>)
    ensures
        is_ascii_chars(encoded(bytes)),
        forall|i: int|
            0 <= i < encoded(bytes).len() ==> is_unreserved_char(#[trigger] encoded(bytes)[i])
                || encoded(bytes)[i] == '%',
    decreases bytes.len(),
{
    if bytes.len() > 0 {
        encoded_is_ascii(bytes.drop_first());
        let rest = encoded(bytes.drop_first());
        let head = encoded_byte(bytes.first());
        let all = encoded(bytes);
        assert(all == head + rest);
        assert forall|i: int| 0 <= i < all.len() implies (is_unreserved_char(#[trigger] all[i])
            || all[i] == '%') && all[i] <= '\u{7f}' by {
            if i < head.len() {
                assert(all[i] == head[i]);
            } else {
                assert(all[i] == rest[i - head.len()]);
            }
        }
    }
}

/// A character compares as its code point does.
proof fn code_point(c: char)
    ensures
        '\0' <= c,
        c as u32 == c as int,
{
}

/// The characters of an ASCII text, each as its byte.
spec fn ascii_bytes(s: Seq<char>) -> Seq<u8> {
    s.map_values(|c: char| c as u8)
}

proof fn ascii_utf8(s: Seq<char>)
    requires
        is_ascii_chars(s),
    ensures
        encode_utf8(s) == ascii_bytes(s),
{
    is_ascii_chars_encode_utf8(s);
    assert forall|i: int| 0 <= i < s.len() implies encode_utf8(s)[i] == ascii_bytes(s)[i] by {
        assert(s[i] as u8 == encode_utf8(s)[i]);
    }
}

proof fn decoded_undoes_encoded(bytes: Seq<u8>)
    ensures
        decoded(ascii_bytes(encoded(bytes))) == bytes,
    decreases bytes.len(),
{
    let all = ascii_bytes(encoded(bytes));
    if bytes.len() == 0 {
        assert(all.len() == 0);
        assert(decoded(all) == bytes);
    } else {
        let byte = bytes.first();
        let rest = bytes.drop_first();
        decoded_undoes_encoded(rest);
        assert(all == ascii_bytes(encoded_byte(byte)) + ascii_bytes(encoded(rest)));
        if is_unreserved(byte) {
            assert(all[0] == byte);
            assert(all.skip(1) == ascii_bytes(encoded(rest)));
        } else {
            let high = byte as int / 16;
            let low = byte as int % 16;
            assert(all[0] == 0x25);
            assert(all[1] == hex_digit(high) as u8);
            assert(all[2] == hex_digit(low) as u8);
            assert(hex_value(all[1]) == Some(high));
            assert(hex_value(all[2]) == Some(low));
            assert(high * 16 + low == byte);
            assert(all.skip(3) == ascii_bytes(encoded(rest)));
        }
        assert(decoded(all) == seq![byte] + rest);
        assert(seq![byte] + rest == bytes);
    }
}

/// Decoding is the exact inverse of encoding, for every text.
pub proof fn decoding_inverts_encoding(s: Seq<char>)
    ensures
        percent_decoded(percent_encoded(s)) == s,
{
    let bytes = encode_utf8(s);
    encoded_is_ascii(bytes);
    ascii_utf8(encoded(bytes));
    decoded_undoes_encoded(bytes);
    encode_utf8_valid_utf8(s);
    encode_utf8_decode_utf8(s);
}

/// Two texts with the same encoding are the same text.
pub proof fn encoding_is_injective(s: Seq<char>, t: Seq<char>)
    requires
        percent_encoded(s) == percent_encoded(t),
    ensures
        s == t,
{
    decoding_inverts_encoding(s);
    decoding_inverts_encoding(t);
}

/// An encoded text holds nothing but unreserved characters and `%`, so that it cannot end a path
/// segment or a query value, nor look like a `{placeholder}`.
pub proof fn encoded_text_is_inert(s: Seq<char>)
    ensures
        forall|i: int|
            0 <= i < percent_encoded(s).len() ==> is_unreserved_char(
                #[trigger] percent_encoded(s)[i],
            ) || percent_encoded(s)[i] == '%',
        !percent_encoded(s).contains('{'),
        !percent_encoded(s).contains('}'),
        !percent_encoded(s).contains('/'),
        !percent_encoded(s).contains('?'),
        !percent_encoded(s).contains('#'),
        !percent_encoded(s).contains('&'),
        !percent_encoded(s).contains('='),
{
    encoded_is_ascii(encode_utf8(s));
}

/// A text of unreserved characters is its own encoding.
pub proof fn unreserved_text_is_left_alone(s: Seq<char>)
    requires
        forall|i: int| 0 <= i < s.len() ==> is_unreserved_char(#[trigger] s[i]),
    ensures
        percent_encoded(s) == s,
    decreases s.len(),
{
    assert forall|i: int| 0 <= i < s.len() implies '\0' <= #[trigger] s[i] <= '\u{7f}' by {
        assert(is_unreserved_char(s[i]));
        code_point(s[i]);
    }
    ascii_utf8(s);
    if s.len() > 0 {
        let rest = s.drop_first();
        assert(is_unreserved_char(s[0]));
        assert forall|i: int| 0 <= i < rest.len() implies is_unreserved_char(#[trigger] rest[i]) by {
            assert(rest[i] == s[i + 1]);
        }
        unreserved_text_is_left_alone(rest);
        ascii_utf8(rest);
        assert(ascii_bytes(s).drop_first() == ascii_bytes(rest));
        assert(s == seq![s[0]] + rest);
    }
}

proof fn decoded_keeps_bytes_without_percent(bytes: Seq<u8>)
    requires
        !bytes.contains(0x25),
    ensures
        decoded(bytes) == bytes,
    decreases bytes.len(),
{
    if bytes.len() > 0 {
        let rest = bytes.skip(1);
        assert(bytes.contains(bytes[0]));
        assert(!rest.contains(0x25)) by {
            if rest.contains(0x25) {
                let i = choose|i: int| 0 <= i < rest.len() && rest[i] == 0x25;
                assert(bytes[i + 1] == 0x25);
            }
        }
        decoded_keeps_bytes_without_percent(rest);
        assert(bytes == seq![bytes[0]] + rest);
    }
}

proof fn percent_byte_is_the_percent_character(s: Seq<char>)
    requires
        !s.contains('%'),
    ensures
        !encode_utf8(s).contains(0x25),
    decreases s.len(),
{
    if s.len() > 0 {
        let rest = s.drop_first();
        assert(!rest.contains('%')) by {
            if rest.contains('%') {
                let i = choose|i: int| 0 <= i < rest.len() && rest[i] == '%';
                assert(s[i + 1] == '%');
            }
        }
        percent_byte_is_the_percent_character(rest);
        let v: u32 = s[0] as u32;
        char_is_scalar(s[0]);
        assert(s.contains(s[0]));
        code_point(s[0]);
        assert(v != 0x25);
        let head = encode_scalar(v);
        assert(!head.contains(0x25)) by {
            assert(has_width_1_encoding(v) && v != 0x25 ==> leading_byte_width_1(v) != 0x25)
                by (bit_vector);
            assert(leading_byte_width_2(v) >= 0xc0) by (bit_vector);
            assert(leading_byte_width_3(v) >= 0xe0) by (bit_vector);
            assert(leading_byte_width_4(v) >= 0xf0) by (bit_vector);
            assert(last_continuation_byte(v) >= 0x80) by (bit_vector);
            assert(second_last_continuation_byte(v) >= 0x80) by (bit_vector);
            assert(third_last_continuation_byte(v) >= 0x80) by (bit_vector);
        }
        let all = encode_utf8(s);
        if all.contains(0x25) {
            let i = choose|i: int| 0 <= i < all.len() && all[i] == 0x25;
            if i < head.len() {
                assert(head[i] == 0x25);
            } else {
                assert(encode_utf8(rest)[i - head.len()] == 0x25);
            }
        }
    }
}

/// A text without a `%` is its own decoding; in particular a `+` stays a `+`.
pub proof fn text_without_percent_is_left_alone(s: Seq<char>)
    requires
        !s.contains('%'),
    ensures
        percent_decoded(s) == s,
{
    percent_byte_is_the_percent_character(s);
    decoded_keeps_bytes_without_percent(encode_utf8(s));
    encode_utf8_valid_utf8(s);
    encode_utf8_decode_utf8(s);
}

/// The value of a hexadecimal digit, given as its code; -1 for any other.
pub open spec fn digit_value(code: int) -> int {
    if 48 <= code <= 57 {
        code - 48
    } else if 65 <= code <= 70 {
        code - 55
    } else if 97 <= code <= 102 {
        code - 87
    } else {
        -1
    }
}

/// Whether the given characters are how a byte is sent: a letter, a digit, `-`, `_`, `.` or `~` as
/// itself, and any other byte as `%` and the two digits of its own value, none of them in lower case.
pub open spec fn is_sent_as(byte: u8, chars: Seq<char>) -> bool {
    if (48 <= byte <= 57) || (65 <= byte <= 90) || (97 <= byte <= 122) || byte == 45 || byte == 95
        || byte == 46 || byte == 126 {
        chars.len() == 1 && chars[0] as int == byte
    } else {
        &&& chars.len() == 3
        &&& chars[0] == '%'
        &&& 0 <= digit_value(chars[1] as int) && chars[1] < 'a'
        &&& 0 <= digit_value(chars[2] as int) && chars[2] < 'a'
        &&& digit_value(chars[1] as int) * 16 + digit_value(chars[2] as int) == byte
    }
}

proof fn pieces_of(bytes: Seq<u8>) -> (pieces: Seq<Seq<char>>)
    ensures
        pieces.len() == bytes.len(),
        encoded(bytes) == pieces.flatten(),
        forall|i: int| 0 <= i < bytes.len() ==> is_sent_as(bytes[i], #[trigger] pieces[i]),
    decreases bytes.len(),
{
    if bytes.len() == 0 {
        Seq::empty()
    } else {
        let rest = pieces_of(bytes.drop_first());
        let first = encoded_byte(bytes[0]);
        let pieces = seq![first] + rest;
        assert(pieces.drop_first() == rest);
        assert(is_sent_as(bytes[0], first));
        assert forall|i: int| 0 <= i < bytes.len() implies is_sent_as(
            bytes[i],
            #[trigger] pieces[i],
        ) by {
            if i > 0 {
                assert(pieces[i] == rest[i - 1]);
                assert(bytes[i] == bytes.drop_first()[i - 1]);
            }
        }
        pieces
    }
}

/// An encoded text is, for each byte of its UTF-8 and in order, how that byte is sent.
pub proof fn every_byte_is_sent_as_itself(s: Seq<char>)
    ensures
        exists|pieces: Seq<Seq<char>>|
            {
                &&& pieces.len() == encode_utf8(s).len()
                &&& percent_encoded(s) == #[trigger] pieces.flatten()
                &&& forall|i: int|
                    0 <= i < pieces.len() ==> is_sent_as(encode_utf8(s)[i], #[trigger] pieces[i])
            },
{
    let pieces = pieces_of(encode_utf8(s));
    assert(percent_encoded(s) == pieces.flatten());
}

/// A `%` and two digits of either case stand for the byte with their value, wherever they come from
/// and whatever follows; any other byte stands for itself.
pub proof fn every_escape_stands_for_its_value(high: u8, low: u8, byte: u8, rest: Seq<u8>)
    ensures
        decoded(Seq::empty()) == Seq::<u8>::empty(),
        0 <= digit_value(high as int) && 0 <= digit_value(low as int) ==> {
            let all = decoded(seq![37u8, high, low] + rest);
            &&& all.len() == decoded(rest).len() + 1
            &&& all[0] == digit_value(high as int) * 16 + digit_value(low as int)
            &&& all.skip(1) == decoded(rest)
        },
        byte != 37 || rest.len() < 2 || digit_value(rest[0] as int) < 0 || digit_value(
            rest[1] as int,
        ) < 0 ==> decoded(seq![byte] + rest) == seq![byte] + decoded(rest),
{
    let escape = seq![37u8, high, low] + rest;
    assert(escape.skip(3) == rest);
    if 0 <= digit_value(high as int) && 0 <= digit_value(low as int) {
        let value = digit_value(high as int) * 16 + digit_value(low as int);
        assert(0 <= value < 256);
        assert(begins_with_escape(escape));
        assert(decoded(escape) == seq![value as u8] + decoded(rest));
        assert(decoded(escape).skip(1) == decoded(rest));
    }
    let plain = seq![byte] + rest;
    assert(plain.skip(1) == rest);
    assert(rest.len() >= 2 ==> plain[1] == rest[0] && plain[2] == rest[1]);
}

/// A decoded text is the text of the decoded bytes: its UTF-8 is exactly those bytes, where they are
/// UTF-8 at all.
pub proof fn decoded_text_has_the_decoded_bytes(s: Seq<char>)
    ensures
        valid_utf8(decoded(encode_utf8(s))) ==> encode_utf8(percent_decoded(s)) == decoded(
            encode_utf8(s),
        ),
        !valid_utf8(decoded(encode_utf8(s))) ==> percent_decoded(s) == repaired_utf8(
            decoded(encode_utf8(s)),
        ),
{
    if valid_utf8(decoded(encode_utf8(s))) {
        decode_utf8_encode_utf8(decoded(encode_utf8(s)));
    }
}

} // verus!
