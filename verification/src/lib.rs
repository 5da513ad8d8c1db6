//! A verified Base64 binary-to-text codec.
//!
//! The library converts arbitrary byte buffers into printable text and back,
//! with both the standard alphabet (`+`, `/` for indices 62 and 63) and the
//! URL/filename-safe alphabet (`-`, `_`). Encoding always pads its output to a
//! multiple of four characters with `=` and emits the unused bits of a final
//! partial group as zero; decoding accepts exactly the texts that encoding
//! produces and rejects anything else with a descriptive error.

pub mod alphabet;
pub mod codec;
pub mod laws;

pub use alphabet::Alphabet;
pub use codec::DecodeError;
pub use codec::base64_decode;
pub use codec::base64_decode_url_safe;
pub use codec::base64_encode;
pub use codec::base64_encode_url_safe;
