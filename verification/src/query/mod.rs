//! Queries over indexed notes.
//!
//! - [`error`]: what can be wrong with a query.
//! - [`field`]: field paths.
//! - [`sort`] and [`order`]: equality and order of values, and of rows by them.
//! - [`operators`]: comparison and logical operators.
//! - [`token`] and [`filter`]: filter expressions.
//! - [`compose`]: filter expressions put together from others.
//! - [`record`]: sources and rows.
//! - [`outcome`]: the rows of a query and what can be done with them.
//! - [`render`]: values and tables as text.

pub mod compose;
pub mod error;
pub mod field;
pub mod filter;
pub mod operators;
pub mod order;
pub mod outcome;
pub mod record;
pub mod render;
pub mod sort;
pub mod token;
