//! Serialization: from a tree of values to an LLSD stream.
pub mod binary;
pub mod notation;
pub mod xml;
