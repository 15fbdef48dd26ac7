//! Index and query core of a Markdown workspace.
//!
//! - [`text`], [`number`], [`names`], [`entries`] and [`path`]: the values that
//!   everything else is made of.
//! - [`duration`] and [`instant`]: spans of time and points in time.
//! - [`field`]: names, keys and values of fields.
//! - [`file`], [`hash`], [`fault`], [`dirtree`], [`env`] and [`store`]: files,
//!   what can go wrong with them, and which of them are remembered.
//! - [`note`]: Markdown notes.
//! - [`index`]: all files, their notes and the links between them.
//! - [`query`]: rows of the index, filtered, ordered and written out.
//! - [`classes`]: which classes a query takes in.
//! - [`laws`]: what all of this is for, stated of all inputs.

use vstd::prelude::*;

pub mod classes;
pub mod dirtree;
pub mod duration;
pub mod entries;
pub mod env;
pub mod fault;
pub mod field;
pub mod file;
pub mod hash;
pub mod index;
pub mod instant;
pub mod laws;
pub mod names;
pub mod note;
pub mod number;
pub mod path;
pub mod query;
pub mod store;
pub mod text;

verus! {

} // verus!
