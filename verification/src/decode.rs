//! Base64 text decoding, as the subscription bodies and credentials are encoded.
use vstd::prelude::*;
use crate::codec::{base64_bytes, base64_decoded, utf8_string, utf8_text, Base64Padding};

verus! {

/// Why a base64 text could not be decoded to a string.
#[derive(Clone, Copy, Debug, PartialEq, Eq, Structural)]
pub enum TextError {
    /// The text is not base64 under the padding rule in use.
    InvalidBase64,
    /// The decoded bytes are not UTF-8.
    InvalidUtf8,
}

/// The text that the base64 text `value` stands for under `padding`.
pub open spec fn decoded_text(padding: Base64Padding, value: Seq<char>) -> Result<Seq<char>, TextError> {
    match base64_decoded(padding, value) {
        None => Err(TextError::InvalidBase64),
        Some(bytes) => match utf8_text(bytes) {
            None => Err(TextError::InvalidUtf8),
            Some(text) => Ok(text),
        },
    }
}

/// The view of a decoding outcome.
pub open spec fn text_outcome(r: Result<String, TextError>) -> Result<Seq<char>, TextError> {
    match r {
        Ok(s) => Ok(s@),
        Err(e) => Err(e),
    }
}

/// Decodes `value` with the standard base64 alphabet under `padding`, then reads
/// the bytes as UTF-8.
pub fn decode_text(padding: Base64Padding, value: &str) -> (r: Result<String, TextError>)
    ensures
        text_outcome(r) == decoded_text(padding, value@),
{
    match base64_bytes(padding, value) {
        None => Err(TextError::InvalidBase64),
        Some(bytes) => match utf8_string(bytes) {
            None => Err(TextError::InvalidUtf8),
            Some(text) => Ok(text),
        },
    }
}

/// Decodes padded standard base64 to a string; the text must be padded base64 of
/// UTF-8 bytes (`try_base64_decode` tests that first).
pub fn base64_decode(value: String) -> (r: String)
    requires
        decoded_text(Base64Padding::Required, value@) is Ok,
    ensures
        decoded_text(Base64Padding::Required, value@) == Ok::<Seq<char>, TextError>(r@),
{
    match decode_text(Base64Padding::Required, value.as_str()) {
        Ok(text) => text,
        Err(_) => {
            assert(false);
            String::new()
        },
    }
}

/// Decodes padded standard base64 to a string, or says why it cannot.
pub fn try_base64_decode(value: String) -> (r: Result<String, TextError>)
    ensures
        text_outcome(r) == decoded_text(Base64Padding::Required, value@),
{
    match decode_text(Base64Padding::Required, value.as_str()) {
        Err(e) => Err(e),
        Ok(_) => Ok(base64_decode(value)),
    }
}

/// Decodes unpadded standard base64 to a string; the text must be unpadded base64
/// of UTF-8 bytes (`try_base64_decode_no_pad` tests that first).
pub fn base64_decode_no_pad(value: String) -> (r: String)
    requires
        decoded_text(Base64Padding::Forbidden, value@) is Ok,
    ensures
        decoded_text(Base64Padding::Forbidden, value@) == Ok::<Seq<char>, TextError>(r@),
{
    match decode_text(Base64Padding::Forbidden, value.as_str()) {
        Ok(text) => text,
        Err(_) => {
            assert(false);
            String::new()
        },
    }
}

/// Decodes unpadded standard base64 to a string, or says why it cannot.
pub fn try_base64_decode_no_pad(value: String) -> (r: Result<String, TextError>)
    ensures
        text_outcome(r) == decoded_text(Base64Padding::Forbidden, value@),
{
    match decode_text(Base64Padding::Forbidden, value.as_str()) {
        Err(e) => Err(e),
        Ok(_) => Ok(base64_decode_no_pad(value)),
    }
}

} // verus!
