//! Byte-stream format conversion: decode hex, Base64, decimal-byte,
//! raw-binary or PEM input to a canonical byte sequence and re-encode it.

pub mod args;
pub mod codec;
