//! What can be wrong with a query.

use vstd::prelude::*;
use vstd::string::*;

use crate::text::{decimal, decimal_text, quoted, quoted_text, signed_decimal, signed_decimal_text};

verus! {

/// Why a query is refused.
#[derive(Debug, PartialEq, Eq)]
pub enum QueryError {
    /// A field path is empty, has an unknown accessor, or is malformed.
    UnknownFieldPath {
        /// The path.
        path: String,
        /// The accessor that was perhaps meant.
        suggestion: Option<String>,
    },
    /// A filter expression is malformed.
    UnparsableFilterExpression {
        /// The expression.
        expr: String,
    },
    /// A limit is negative.
    NegativeLimit {
        /// The limit.
        n: i64,
    },
    /// A task list was asked for of rows that are no tasks.
    TaskListOnPageRecords,
    /// A table has another number of headers than columns.
    TableColumnMismatch {
        /// Number of headers.
        headers: usize,
        /// Number of columns.
        columns: usize,
    },
}

impl QueryError {
    /// This error refuses the field path `text` with this suggestion.
    pub open spec fn refuses_path(self, text: Seq<char>, hint: Option<Seq<char>>) -> bool {
        match self {
            QueryError::UnknownFieldPath { path, suggestion } => {
                &&& path@ == text
                &&& match (suggestion, hint) {
                    (Some(a), Some(b)) => a@ == b,
                    (None, None) => true,
                    _ => false,
                }
            },
            _ => false,
        }
    }

    /// This error refuses the filter expression `text`.
    pub open spec fn refuses_filter(self, text: Seq<char>) -> bool {
        match self {
            QueryError::UnparsableFilterExpression { expr } => expr@ == text,
            _ => false,
        }
    }

    /// Refuses a filter expression.
    pub fn unparsable_filter(expr: &str) -> (error: Self)
        ensures
            error.refuses_filter(expr@),
    {
        QueryError::UnparsableFilterExpression { expr: expr.to_owned() }
    }

    /// Refuses a field path, with a suggestion where one is known.
    pub fn unknown_field_path(path: &str, suggestion: Option<&str>) -> (error: Self)
        ensures
            error.refuses_path(
                path@,
                match suggestion {
                    Some(text) => Some(text@),
                    None => None,
                },
            ),
    {
        QueryError::UnknownFieldPath {
            path: path.to_owned(),
            suggestion: match suggestion {
                Some(text) => Some(text.to_owned()),
                None => None,
            },
        }
    }

    /// The text that describes this error.
    pub open spec fn message_text(self) -> Seq<char> {
        match self {
            QueryError::UnknownFieldPath { path, suggestion } => {
                let base = "invalid field path "@ + quoted_text(path@)
                    + "; expected `file.<field>` (path, name, folder, size, ctime, cdate, mtime, mdate), `task.<field>` (completed, text), or a single frontmatter, inline field, or `tags` name"@;
                match suggestion {
                    Some(name) => base + " (did you mean `"@ + name@ + "`?)"@,
                    None => base,
                }
            },
            QueryError::UnparsableFilterExpression { expr } => "invalid filter expression "@
                + quoted_text(expr@)
                + "; expected `<field> <op> <value>` with op one of ==, !=, >=, <=, >, < and value a quoted string, number, or boolean"@,
            QueryError::NegativeLimit { n } => "invalid limit "@ + signed_decimal(n as int)
                + "; expected a non-negative row count"@,
            QueryError::TaskListOnPageRecords => "task_list requires task-level records from the `tasks` namespace; got page-level records with no task fields"@,
            QueryError::TableColumnMismatch { headers, columns } => "table headers ("@ + decimal(
                headers as nat,
            ) + ") and columns ("@ + decimal(columns as nat) + ") must have the same length"@,
        }
    }

    /// Describes this error.
    pub fn message(&self) -> (text: String)
        ensures
            text@ == self.message_text(),
    {
        match self {
            QueryError::UnknownFieldPath { path, suggestion } => {
                let base = "invalid field path ".to_owned().concat(
                    quoted(path.as_str()).as_str(),
                ).concat(
                    "; expected `file.<field>` (path, name, folder, size, ctime, cdate, mtime, mdate), `task.<field>` (completed, text), or a single frontmatter, inline field, or `tags` name",
                );
                match suggestion {
                    Some(name) => base.concat(" (did you mean `").concat(name.as_str()).concat(
                        "`?)",
                    ),
                    None => base,
                }
            },
            QueryError::UnparsableFilterExpression { expr } => "invalid filter expression ".to_owned().concat(
                quoted(expr.as_str()).as_str(),
            ).concat(
                "; expected `<field> <op> <value>` with op one of ==, !=, >=, <=, >, < and value a quoted string, number, or boolean",
            ),
            QueryError::NegativeLimit { n } => "invalid limit ".to_owned().concat(
                signed_decimal_text(*n).as_str(),
            ).concat("; expected a non-negative row count"),
            QueryError::TaskListOnPageRecords => "task_list requires task-level records from the `tasks` namespace; got page-level records with no task fields".to_owned(),
            QueryError::TableColumnMismatch { headers, columns } => "table headers (".to_owned().concat(
                decimal_text(*headers as u64).as_str(),
            ).concat(") and columns (").concat(decimal_text(*columns as u64).as_str()).concat(
                ") must have the same length",
            ),
        }
    }
}

} // verus!
