//! Laws: what holds of the codecs taken together.
pub mod binary;
pub mod detect;
pub mod notation;
pub mod well_formed;
pub mod xml;
