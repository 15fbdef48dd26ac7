//! Duration parsing and synthesis.
//!
//! Accepts human-readable duration strings like `"1h 30m"` or
//! `"4 yrs, 6 wks"`. Parts are `<number><unit>` pairs separated by whitespace
//! or commas.
//!
//! - [`unit::DurationUnit`]: the units and their spellings.
//! - [`error::DurationError`]: parse and conversion failures.

pub mod digits;
pub mod error;
pub mod grammar;
pub mod laws;
pub mod unit;
pub mod value;
