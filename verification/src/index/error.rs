//! Failures of an index.

use vstd::prelude::*;

use crate::dirtree::DirTreeError;
use crate::fault::{path_message, IoFault, IoFaultView};
use crate::file::FileNameError;
use crate::path::FilePath;

verus! {

/// A failure of the index store.
#[derive(Debug)]
pub enum StoreError {
    /// The file system failed.
    Io {
        /// The file.
        path: FilePath,
        /// What the system says.
        source: IoFault,
    },
    /// The database failed.
    Redb {
        /// The database.
        path: FilePath,
        /// What the database says.
        detail: String,
    },
    /// A row cannot be written.
    Serialize {
        /// The file of the row.
        path: FilePath,
        /// What the encoder says.
        detail: String,
    },
    /// A row cannot be read.
    Deserialize {
        /// The file of the row.
        path: FilePath,
        /// What the decoder says.
        detail: String,
    },
}

impl StoreError {
    /// The text that describes this error.
    pub open spec fn message_text(self) -> Seq<char> {
        match self {
            StoreError::Io { path, .. } => "failed to access "@ + path.spec_text() + ""@,
            StoreError::Redb { path, .. } => "failed to access the database at "@ + path.spec_text() + ""@,
            StoreError::Serialize { path, .. } => "failed to serialize the row for "@
                + path.spec_text() + ""@,
            StoreError::Deserialize { path, .. } => "failed to deserialize the row for "@
                + path.spec_text() + ""@,
        }
    }

    /// Describes this error.
    pub fn message(&self) -> (text: String)
        ensures
            text@ == self.message_text(),
    {
        match self {
            StoreError::Io { path, .. } => path_message("failed to access ", path, ""),
            StoreError::Redb { path, .. } => path_message(
                "failed to access the database at ",
                path,
                "",
            ),
            StoreError::Serialize { path, .. } => path_message(
                "failed to serialize the row for ",
                path,
                "",
            ),
            StoreError::Deserialize { path, .. } => path_message(
                "failed to deserialize the row for ",
                path,
                "",
            ),
        }
    }
}

/// A failure while an index is built, refreshed or loaded.
#[derive(Debug)]
pub enum IndexError {
    /// The store failed.
    Store(StoreError),
    /// The walk through the workspace failed.
    Walk(DirTreeError),
    /// A path names no file.
    Path(FileNameError),
    /// A note cannot be read.
    NoteParse {
        /// The note.
        path: FilePath,
        /// What the system says.
        source: IoFault,
    },
    /// A file cannot be inspected.
    Inspect {
        /// The file.
        path: FilePath,
        /// What the system says.
        source: IoFault,
    },
}

impl IndexError {
    /// The text that describes this error. One that wraps another says what
    /// that one says.
    pub open spec fn message_text(self) -> Seq<char> {
        match self {
            IndexError::Store(error) => error.message_text(),
            IndexError::Walk(error) => error.message_text(),
            IndexError::Path(error) => error.message_text(),
            IndexError::NoteParse { path, .. } => "failed to parse note "@ + path.spec_text()
                + ""@,
            IndexError::Inspect { path, .. } => "failed to inspect "@ + path.spec_text() + ""@,
        }
    }

    /// Describes this error.
    pub fn message(&self) -> (text: String)
        ensures
            text@ == self.message_text(),
    {
        match self {
            IndexError::Store(error) => error.message(),
            IndexError::Walk(error) => error.message(),
            IndexError::Path(error) => error.message(),
            IndexError::NoteParse { path, .. } => path_message("failed to parse note ", path, ""),
            IndexError::Inspect { path, .. } => path_message("failed to inspect ", path, ""),
        }
    }

    /// The file system failure behind this error. One that wraps another has
    /// the failure of that one.
    pub open spec fn fault(self) -> Option<IoFaultView> {
        match self {
            IndexError::Store(StoreError::Io { source, .. }) => Some(source@),
            IndexError::Store(_) => None,
            IndexError::Walk(error) => Some(error.fault()),
            IndexError::Path(_) => None,
            IndexError::NoteParse { source, .. } => Some(source@),
            IndexError::Inspect { source, .. } => Some(source@),
        }
    }

    /// The file system failure behind this error.
    pub fn source(&self) -> (fault: Option<&IoFault>)
        ensures
            match fault {
                Some(found) => self.fault() == Some(found@),
                None => self.fault() is None,
            },
    {
        match self {
            IndexError::Store(StoreError::Io { source, .. }) => Some(source),
            IndexError::Store(_) => None,
            IndexError::Walk(error) => Some(error.source()),
            IndexError::Path(_) => None,
            IndexError::NoteParse { source, .. } => Some(source),
            IndexError::Inspect { source, .. } => Some(source),
        }
    }
}

impl From<StoreError> for IndexError {
    fn from(error: StoreError) -> (converted: Self) {
        IndexError::Store(error)
    }
}

impl vstd::std_specs::convert::FromSpecImpl<StoreError> for IndexError {
    open spec fn obeys_from_spec() -> bool {
        true
    }

    open spec fn from_spec(error: StoreError) -> Self {
        IndexError::Store(error)
    }
}

impl From<DirTreeError> for IndexError {
    fn from(error: DirTreeError) -> (converted: Self) {
        IndexError::Walk(error)
    }
}

impl vstd::std_specs::convert::FromSpecImpl<DirTreeError> for IndexError {
    open spec fn obeys_from_spec() -> bool {
        true
    }

    open spec fn from_spec(error: DirTreeError) -> Self {
        IndexError::Walk(error)
    }
}

} // verus!
