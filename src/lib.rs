//! Base-45 codec: binary data as text over a 45-symbol alphabet.
//!
//! Bytes are taken two at a time; each pair is read as a big-endian 16-bit
//! number and written as its base-45 digits, least significant first. The
//! most significant digit is left out when it is zero. Decoding reads the
//! symbols three at a time and reverses the process.
pub mod alphabet;
pub mod encoder;
pub mod decoder;
pub mod error;
pub mod lemmas;

pub use alphabet::{decode_byte, symbol_at};
pub use decoder::{decode, decode_to_bytes};
pub use encoder::{encode, encode_bytes};
pub use error::{DecodingError, DecodingErrorKind};
