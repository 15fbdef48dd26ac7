//! Notes: Markdown files with their metadata.
//!
//! - [`structure`]: links, lists, tasks, tags and code regions.
//! - [`value`]: typed metadata values.
//! - [`metadata`]: fields of frontmatter and body text.
//! - [`inline`]: inline fields and tags in plain text.
//! - [`events`]: Markdown events as plain values.
//! - [`parser`]: from events to the outline of a note.
//! - [`texts`]: the plain text of a note, in which fields and tags are looked for.
//! - [`document`]: the note itself.
//! - [`byte`]: byte offsets in a source text.

pub mod byte;
pub mod document;
pub mod events;
pub mod inline;
pub mod metadata;
pub mod parser;
pub mod structure;
pub mod texts;
pub mod value;
