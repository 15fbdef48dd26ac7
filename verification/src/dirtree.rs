//! Failures of directory walks, and what a walk leaves out.

use vstd::prelude::*;

use crate::fault::{path_message, IoFault, IoFaultKind, IoFaultView};
use crate::path::FilePath;

verus! {

/// A failure during a directory walk.
#[derive(Debug)]
pub enum DirTreeError {
    /// The root of the walk does not exist.
    MissingRoot {
        /// The root.
        path: FilePath,
        /// What the system says.
        source: IoFault,
    },
    /// The root exists but cannot be opened.
    RootInaccessible {
        /// The root.
        path: FilePath,
        /// What the system says.
        source: IoFault,
    },
    /// Something below the root cannot be accessed.
    NodeInaccessible {
        /// The path, or the root where it is not known.
        path: FilePath,
        /// What the system says.
        source: IoFault,
    },
}

impl DirTreeError {
    /// How the path that the failure is about is written.
    pub open spec fn place(self) -> Seq<char> {
        match self {
            DirTreeError::MissingRoot { path, .. } => path.spec_text(),
            DirTreeError::RootInaccessible { path, .. } => path.spec_text(),
            DirTreeError::NodeInaccessible { path, .. } => path.spec_text(),
        }
    }

    /// What the system says of it.
    pub open spec fn fault(self) -> IoFaultView {
        match self {
            DirTreeError::MissingRoot { source, .. } => source@,
            DirTreeError::RootInaccessible { source, .. } => source@,
            DirTreeError::NodeInaccessible { source, .. } => source@,
        }
    }

    /// The text that describes this error.
    pub open spec fn message_text(self) -> Seq<char> {
        match self {
            DirTreeError::MissingRoot { path, .. } => "walk root "@ + path.spec_text()
                + " does not exist"@,
            DirTreeError::RootInaccessible { path, .. } => "failed to access walk root "@
                + path.spec_text() + ""@,
            DirTreeError::NodeInaccessible { path, .. } => "failed to access node "@
                + path.spec_text() + ""@,
        }
    }

    /// Describes this error.
    pub fn message(&self) -> (text: String)
        ensures
            text@ == self.message_text(),
    {
        match self {
            DirTreeError::MissingRoot { path, .. } => path_message(
                "walk root ",
                path,
                " does not exist",
            ),
            DirTreeError::RootInaccessible { path, .. } => path_message(
                "failed to access walk root ",
                path,
                "",
            ),
            DirTreeError::NodeInaccessible { path, .. } => path_message(
                "failed to access node ",
                path,
                "",
            ),
        }
    }

    /// The path and what the system says.
    pub fn into_parts(self) -> (parts: (FilePath, IoFault))
        ensures
            parts.0.spec_text() == self.place(),
            parts.1@ == self.fault(),
    {
        match self {
            DirTreeError::MissingRoot { path, source } => (path, source),
            DirTreeError::RootInaccessible { path, source } => (path, source),
            DirTreeError::NodeInaccessible { path, source } => (path, source),
        }
    }

    /// What the system says.
    pub fn source(&self) -> (fault: &IoFault)
        ensures
            fault@ == self.fault(),
    {
        match self {
            DirTreeError::MissingRoot { source, .. } => source,
            DirTreeError::RootInaccessible { source, .. } => source,
            DirTreeError::NodeInaccessible { source, .. } => source,
        }
    }
}

/// The error for a failure at `depth` below the root of a walk. Where the walk
/// does not know the path, the root stands for it.
pub fn classify(root: &FilePath, depth: usize, path: Option<FilePath>, source: IoFault) -> (error:
    DirTreeError)
    ensures
        error.place() == match path {
            Some(known) => known.spec_text(),
            None => root.spec_text(),
        },
        error.fault() == source@,
        error is MissingRoot <==> depth == 0 && source@.kind == IoFaultKind::NotFound,
        error is RootInaccessible <==> depth == 0 && source@.kind != IoFaultKind::NotFound,
        error is NodeInaccessible <==> depth > 0,
{
    let path = match path {
        Some(known) => known,
        None => root.copy(),
    };
    if depth > 0 {
        DirTreeError::NodeInaccessible { path, source }
    } else if source.is_not_found() {
        DirTreeError::MissingRoot { path, source }
    } else {
        DirTreeError::RootInaccessible { path, source }
    }
}

/// Whether a walk leaves a node out with all below it: only directories that
/// the caller asked for, never files of the same name.
pub fn is_pruned(is_dir: bool, is_unwanted: bool) -> (pruned: bool)
    ensures
        pruned == (is_dir && is_unwanted),
{
    is_dir && is_unwanted
}

} // verus!
