use subc::decode::{
    base64_decode, base64_decode_no_pad, try_base64_decode, try_base64_decode_no_pad, TextError,
};
use subc::codec::{base64_bytes, percent_decoded, utf8_string, Base64Padding};

#[test]
fn padded_base64_decodes_to_text() {
    assert_eq!(base64_decode(String::from("aGVsbG8=")), "hello");
    assert_eq!(try_base64_decode(String::from("aGVsbG8=")), Ok(String::from("hello")));
}

#[test]
fn padded_base64_rejects_missing_padding() {
    assert_eq!(try_base64_decode(String::from("aGVsbG8")), Err(TextError::InvalidBase64));
}

#[test]
fn unpadded_base64_decodes_to_text() {
    assert_eq!(base64_decode_no_pad(String::from("aGVsbG8")), "hello");
    assert_eq!(try_base64_decode_no_pad(String::from("aGVsbG8")), Ok(String::from("hello")));
}

#[test]
fn unpadded_base64_rejects_padding() {
    assert_eq!(try_base64_decode_no_pad(String::from("aGVsbG8=")), Err(TextError::InvalidBase64));
}

#[test]
fn base64_rejects_foreign_characters() {
    assert_eq!(try_base64_decode(String::from("!!!!")), Err(TextError::InvalidBase64));
}

#[test]
fn decoded_bytes_must_be_utf8() {
    assert_eq!(try_base64_decode(String::from("/w==")), Err(TextError::InvalidUtf8));
}

#[test]
fn utils_reexport_decodes() {
    assert_eq!(subc::utils::base64_decode(String::from("YWJj")), "abc");
    assert_eq!(subc::utils::base64_decode_no_pad(String::from("YWJj")), "abc");
    assert_eq!(subc::utils::try_base64_decode(String::from("YWJj")), Ok(String::from("abc")));
}

#[test]
fn base64_bytes_decodes() {
    assert_eq!(base64_bytes(Base64Padding::Required, "/w=="), Some(vec![0xffu8]));
    assert_eq!(base64_bytes(Base64Padding::Forbidden, "/w"), Some(vec![0xffu8]));
    assert_eq!(base64_bytes(Base64Padding::Forbidden, "/w=="), None);
}

#[test]
fn utf8_string_checks_encoding() {
    assert_eq!(utf8_string(vec![0x68, 0x69]), Some(String::from("hi")));
    assert_eq!(utf8_string(vec![0xff]), None);
}

#[test]
fn percent_decoding_names() {
    assert_eq!(percent_decoded("My%20Node"), Some(String::from("My Node")));
    assert_eq!(percent_decoded("%E9%A6%99%E6%B8%AF"), Some(String::from("香港")));
    assert_eq!(percent_decoded("plain"), Some(String::from("plain")));
    assert_eq!(percent_decoded("%FF"), None);
}
