//! A verified decoder for a self-describing, tag-length-value binary
//! serialization format: one byte stream in, one dynamically-typed value
//! tree out. A one-byte marker selects among the wire encodings; fixed
//! length, count and numeric fields follow in big-endian order; arrays
//! and maps hold recursively decoded children. Malformed UTF-8 in string
//! payloads is preserved rather than rejected, and the one reserved
//! marker byte decodes to nil. Decoding is specified against a
//! mathematical model of the format, and a proved round-trip law ties
//! the model to a conformant encoding of every decodable value.

pub mod decode;
pub mod laws;
pub mod marker;
pub mod utf8;
pub mod value;
