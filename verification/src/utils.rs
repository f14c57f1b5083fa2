//! Helpers shared by the subscription services.
pub use crate::decode::{
    base64_decode, base64_decode_no_pad, try_base64_decode, try_base64_decode_no_pad,
};
