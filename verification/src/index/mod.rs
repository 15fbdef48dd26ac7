//! The index of a workspace: its files, their notes and the links between them.
//!
//! - [`sort`]: rows in the order of their paths.
//! - [`scan`]: which files are indexed.
//! - [`links`]: which file a link leads to.
//! - [`inlinks`]: which notes link to a file.
//! - [`spelling`]: how the paths of links are written.
//! - [`entry`]: the rows of the index.
//! - [`delta`]: what changed between two states.
//! - [`builder`]: an index built anew or from persisted notes.
//! - [`refresh`] and [`plan`]: an index brought up to date.
//! - [`codec`] and [`epochs`]: keys and rows of the index store.
//! - [`error`]: what can go wrong.

pub mod builder;
pub mod codec;
pub mod delta;
pub mod entry;
pub mod epochs;
pub mod error;
pub mod inlinks;
pub mod links;
pub mod plan;
pub mod refresh;
pub mod scan;
pub mod sort;
pub mod spelling;
