//! The encodings the subscription format is built from: base64, UTF-8, percent
//! encoding and JSON string literals.
use vstd::prelude::*;
use vstd::utf8::{
    decode_utf8, encode_scalar, encode_utf8, has_width_1_encoding, last_continuation_byte,
    leading_byte_width_1, leading_byte_width_2, leading_byte_width_3, leading_byte_width_4,
    second_last_continuation_byte, third_last_continuation_byte, valid_utf8,
};
use base64::Engine;
use crate::text::concat;

verus! {

#[verifier::external_type_specification]
#[verifier::external_body]
pub struct ExBase64DecodeError(base64::DecodeError);

#[verifier::external_type_specification]
#[verifier::external_body]
pub struct ExFromUtf8Error(std::string::FromUtf8Error);

/// Which padding a base64 text must carry.
#[derive(Clone, Copy, Debug, PartialEq, Eq)]
pub enum Base64Padding {
    /// Canonical `=` padding is required (the standard engine).
    Required,
    /// No padding may appear (the standard engine without padding).
    Forbidden,
}

/// The bytes that the standard base64 alphabet decodes `input` to under the given
/// padding rule, or `None` where the text is not accepted.
pub uninterp spec fn base64_decoded(padding: Base64Padding, input: Seq<char>) -> Option<Seq<u8>>;

/// Decodes `input` with the standard base64 alphabet.
///
/// Trusted: calls `Engine::decode` of `base64::engine::general_purpose::STANDARD`
/// (padding required) or `STANDARD_NO_PAD` (padding forbidden). The contract only
/// says that the outcome is a function of the padding rule and the text, named
/// `base64_decoded`; what that function is, is not stated.
#[verifier::external_body]
fn engine_decode(padding: Base64Padding, input: &str) -> (r: Result<Vec<u8>, base64::DecodeError>)
    ensures
        r is Ok <==> base64_decoded(padding, input@) is Some,
        r matches Ok(bytes) ==> base64_decoded(padding, input@) == Some(bytes@),
{
    let engine = match padding {
        Base64Padding::Required => &base64::engine::general_purpose::STANDARD,
        Base64Padding::Forbidden => &base64::engine::general_purpose::STANDARD_NO_PAD,
    };
    engine.decode(input)
}

/// Decodes `input` as base64 under `padding`; `None` where it is not base64.
pub fn base64_bytes(padding: Base64Padding, input: &str) -> (r: Option<Vec<u8>>)
    ensures
        r is Some <==> base64_decoded(padding, input@) is Some,
        r matches Some(bytes) ==> base64_decoded(padding, input@) == Some(bytes@),
{
    match engine_decode(padding, input) {
        Ok(bytes) => Some(bytes),
        Err(_) => None,
    }
}

/// The text that the UTF-8 bytes `bytes` encode, or `None` where they are not UTF-8.
pub open spec fn utf8_text(bytes: Seq<u8>) -> Option<Seq<char>> {
    if valid_utf8(bytes) {
        Some(decode_utf8(bytes))
    } else {
        None
    }
}

/// Reads `bytes` as UTF-8.
///
/// Trusted: calls `String::from_utf8`, which std documents as succeeding exactly
/// on valid UTF-8 and then holding the characters those bytes encode.
#[verifier::external_body]
fn string_from_utf8(bytes: Vec<u8>) -> (r: Result<String, std::string::FromUtf8Error>)
    ensures
        r is Ok <==> valid_utf8(bytes@),
        r matches Ok(s) ==> s@ == decode_utf8(bytes@),
{
    String::from_utf8(bytes)
}

/// Reads `bytes` as UTF-8; `None` where they are not UTF-8.
pub fn utf8_string(bytes: Vec<u8>) -> (r: Option<String>)
    ensures
        r is Some <==> utf8_text(bytes@) is Some,
        r matches Some(s) ==> utf8_text(bytes@) == Some(s@),
{
    match string_from_utf8(bytes) {
        Ok(s) => Some(s),
        Err(_) => None,
    }
}

/// The value of an ASCII hexadecimal digit, either case.
pub open spec fn hex_value(b: u8) -> Option<u8> {
    if 48 <= b <= 57 {
        Some((b - 48) as u8)
    } else if 65 <= b <= 70 {
        Some((b - 55) as u8)
    } else if 97 <= b <= 102 {
        Some((b - 87) as u8)
    } else {
        None
    }
}

/// `bytes` with every `%` followed by two hexadecimal digits replaced by the byte
/// those digits spell; every other byte, `+` included, is kept.
pub open spec fn percent_decode(bytes: Seq<u8>) -> Seq<u8>
    decreases bytes.len(),
{
    if bytes.len() == 0 {
        bytes
    } else if bytes[0] == 37 && bytes.len() >= 3 && hex_value(bytes[1]) is Some && hex_value(
        bytes[2],
    ) is Some {
        seq![(hex_value(bytes[1])->0 * 16 + hex_value(bytes[2])->0) as u8] + percent_decode(
            bytes.skip(3),
        )
    } else {
        seq![bytes[0]] + percent_decode(bytes.skip(1))
    }
}

/// The text that percent-decoding `s` gives, or `None` where the decoded bytes are
/// not UTF-8.
pub open spec fn percent_decoded_text(s: Seq<char>) -> Option<Seq<char>> {
    utf8_text(percent_decode(encode_utf8(s)))
}

/// Percent-decodes `data`.
///
/// Trusted: calls `urlencoding::decode`, whose source decodes each `%` followed by
/// two hexadecimal digits to that byte, keeps every other byte, and then reads the
/// bytes as UTF-8, failing where they are not.
#[verifier::external_body]
fn url_decode(data: &str) -> (r: Result<String, std::string::FromUtf8Error>)
    ensures
        r is Ok <==> percent_decoded_text(data@) is Some,
        r matches Ok(s) ==> percent_decoded_text(data@) == Some(s@),
{
    match urlencoding::decode(data) {
        Ok(text) => Ok(text.into_owned()),
        Err(e) => Err(e),
    }
}

/// Percent-decodes `data`; `None` where the decoded bytes are not UTF-8.
pub fn percent_decoded(data: &str) -> (r: Option<String>)
    ensures
        r is Some <==> percent_decoded_text(data@) is Some,
        r matches Some(s) ==> percent_decoded_text(data@) == Some(s@),
{
    match url_decode(data) {
        Ok(s) => Some(s),
        Err(_) => None,
    }
}

/// A lowercase hexadecimal digit for `d < 16`.
pub open spec fn lower_hex_digit(d: u32) -> char {
    if d < 10 {
        (48 + d) as char
    } else {
        (87 + d) as char
    }
}

/// How one character is written inside a JSON string literal.
pub open spec fn json_escape(c: char) -> Seq<char> {
    if c == '"' {
        seq!['\\', '"']
    } else if c == '\\' {
        seq!['\\', '\\']
    } else if c == '\u{8}' {
        seq!['\\', 'b']
    } else if c == '\t' {
        seq!['\\', 't']
    } else if c == '\n' {
        seq!['\\', 'n']
    } else if c == '\u{c}' {
        seq!['\\', 'f']
    } else if c == '\r' {
        seq!['\\', 'r']
    } else if (c as u32) < 32 {
        seq!['\\', 'u', '0', '0', lower_hex_digit((c as u32) / 16), lower_hex_digit((c as u32) % 16)]
    } else {
        seq![c]
    }
}

/// The JSON string literal for `s`: the escaped characters between double quotes.
pub open spec fn json_literal(s: Seq<char>) -> Seq<char> {
    seq!['"'] + concat(s.map_values(|c: char| json_escape(c))) + seq!['"']
}

/// The JSON text of the string value `s`.
///
/// Trusted: calls `Display` of `serde_json::Value::String`, whose source writes a
/// double quote, then each character with `"` and `\` escaped by a backslash,
/// backspace, tab, newline, form feed and carriage return as `\b \t \n \f \r`, other
/// characters below U+0020 as `\u00` and two lowercase hex digits, every other
/// character unchanged, and a closing double quote.
#[verifier::external_body]
pub(crate) fn json_string(s: &str) -> (r: String)
    ensures
        r@ == json_literal(s@),
{
    serde_json::Value::String(s.to_owned()).to_string()
}

// ---------------------------------------------------------------------------
// Laws.
// ---------------------------------------------------------------------------
proof fn lemma_scalar_free_of_percent(c: char)
    requires
        c != '%',
    ensures
        !encode_scalar(c as u32).contains(37u8),
{
    let v = c as u32;
    assert(v != 37) by {
        vstd::utf8::char_u32_cast(c, v);
        vstd::utf8::char_u32_cast('%', 37u32);
    }
    let e = encode_scalar(v);
    assert(leading_byte_width_2(v) != 37u8) by (bit_vector);
    assert(leading_byte_width_3(v) != 37u8) by (bit_vector);
    assert(leading_byte_width_4(v) != 37u8) by (bit_vector);
    assert(last_continuation_byte(v) != 37u8) by (bit_vector);
    assert(second_last_continuation_byte(v) != 37u8) by (bit_vector);
    assert(third_last_continuation_byte(v) != 37u8) by (bit_vector);
    if has_width_1_encoding(v) {
        assert(leading_byte_width_1(v) != 37u8) by (bit_vector)
            requires
                v <= 0x7F,
                v != 37,
        ;
    }
    if e.contains(37u8) {
        let k = choose|k: int| 0 <= k < e.len() && e[k] == 37u8;
        assert(e[k] != 37u8);
    }
}

proof fn lemma_encoding_free_of_percent(s: Seq<char>)
    requires
        !s.contains('%'),
    ensures
        !encode_utf8(s).contains(37u8),
    decreases s.len(),
{
    if s.len() > 0 {
        let rest = s.drop_first();
        assert(!rest.contains('%')) by {
            if rest.contains('%') {
                let k = choose|k: int| 0 <= k < rest.len() && rest[k] == '%';
                assert(s[k + 1] == '%');
            }
        }
        lemma_encoding_free_of_percent(rest);
        assert(s[0] != '%');
        lemma_scalar_free_of_percent(s[0]);
        let head = encode_scalar(s[0] as u32);
        let all = encode_utf8(s);
        assert(all == head + encode_utf8(rest));
        if all.contains(37u8) {
            let k = choose|k: int| 0 <= k < all.len() && all[k] == 37u8;
            if k < head.len() {
                assert(head[k] == 37u8);
            } else {
                assert(encode_utf8(rest)[k - head.len()] == 37u8);
            }
        }
    }
}

proof fn lemma_percent_decode_keeps_plain_bytes(b: Seq<u8>)
    requires
        !b.contains(37u8),
    ensures
        percent_decode(b) == b,
    decreases b.len(),
{
    if b.len() > 0 {
        let rest = b.skip(1);
        assert(!rest.contains(37u8)) by {
            if rest.contains(37u8) {
                let k = choose|k: int| 0 <= k < rest.len() && rest[k] == 37u8;
                assert(b[k + 1] == 37u8);
            }
        }
        lemma_percent_decode_keeps_plain_bytes(rest);
        assert(b[0] != 37u8);
        assert(seq![b[0]] + rest =~= b);
    }
}

/// A text without `%` percent-decodes to itself.
pub proof fn lemma_percent_free_text_unchanged(s: Seq<char>)
    requires
        !s.contains('%'),
    ensures
        percent_decoded_text(s) == Some(s),
{
    lemma_encoding_free_of_percent(s);
    lemma_percent_decode_keeps_plain_bytes(encode_utf8(s));
    vstd::utf8::encode_utf8_valid_utf8(s);
    vstd::utf8::encode_utf8_decode_utf8(s);
}

} // verus!
