//! What the operations of the library are for, stated of all inputs.
//!
//! Each law speaks of results alone: which they are, how two of them stand to
//! each other, what is read back of what was written. None goes by how a result
//! is found.
//!
//! - [`texts`]: whitespace, letters and digits.
//! - [`order`]: texts, numbers and values in order.
//! - [`paths`]: paths and the names in them.
//! - [`links`]: which file a link leads to.
//! - [`notes`]: what is read of a note.
//! - [`frontmatter`]: the fields that frontmatter gives.
//! - [`prose`]: the texts of a note that tags and fields are read from.
//! - [`inline`]: tags and fields in the text of a note.
//! - [`fields`]: what a field path gives for a row.
//! - [`filters`]: what a filter means, and which rows satisfy it.
//! - [`rows`]: rows kept, ordered, written out.
//! - [`changes`]: files, and what a change of them means.
//! - [`settings`]: settings, classes and stored states.
//! - [`messages`]: what errors tell.

pub mod changes;
pub mod fields;
pub mod filters;
pub mod frontmatter;
pub mod inline;
pub mod links;
pub mod messages;
pub mod notes;
pub mod order;
pub mod paths;
pub mod prose;
pub mod rows;
pub mod settings;
pub mod texts;
