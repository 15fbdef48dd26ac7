//! Exact and forgiving field identifiers, and suggestions for mistyped ones.
//!
//! - [`name::FieldName`] keeps exact identity: `status` and `Status` differ.
//! - [`key::FieldKey`] keeps the text for display and stores a canonical form
//!   for forgiving matches across case, whitespace and punctuation.
//! - [`value::FieldValue`] is a value of a document.
//! - [`suggest`] finds the closest known name.
//! - [`yaml::YamlValue`] is a YAML document as plain values.

pub mod key;
pub mod name;
pub mod suggest;
pub mod value;
pub mod yaml;
