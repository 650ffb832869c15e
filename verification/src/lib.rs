//! Linden Lab Structured Data (LLSD): one value tree and three wire encodings
//! of it, binary, XML and notation, with a decoder that detects the encoding.
//!
//! Every function of this crate is verified against a mathematical model of
//! the value tree ([`value::Value`]) and of each encoding.
pub mod de;
pub mod error;
pub mod laws;
pub mod outside;
pub mod ser;
pub mod text;
pub mod value;
pub mod wire;

pub use crate::de::binary::from_bytes as binary_from_bytes;
pub use crate::de::notation::from_bytes as notation_from_bytes;
pub use crate::de::notation::from_str as notation_from_str;
pub use crate::de::xml::from_str;
pub use crate::de::{auto_from_bytes, auto_from_str};
pub use crate::error::{
    BinaryError, EncodeError, LLSDError, NotationError, XmlError, XmlErrorKind,
};
pub use crate::ser::binary::to_bytes;
pub use crate::ser::notation::to_string as notation_to_string;
pub use crate::ser::xml::to_string;
pub use crate::value::{LLSDMap, LLSDReal, LLSDValue, MapEntry};
