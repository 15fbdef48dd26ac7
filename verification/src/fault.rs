//! Failures of file system operations, as values.

use vstd::prelude::*;
use vstd::string::*;

use crate::path::FilePath;

verus! {

/// Why an operation failed.
#[derive(Copy, Clone, Debug, PartialEq, Eq, Structural)]
pub enum IoFaultKind {
    /// There is no such file.
    NotFound,
    /// Access is denied.
    PermissionDenied,
    /// There is such a file already.
    AlreadyExists,
    /// The data is malformed.
    InvalidData,
    /// A pipe was closed.
    BrokenPipe,
    /// Anything else.
    Other,
}

/// A failed file system operation.
#[derive(Debug)]
pub struct IoFault {
    kind: IoFaultKind,
    text: String,
}

/// Contents of an [`IoFault`].
pub struct IoFaultView {
    /// Why the operation failed.
    pub kind: IoFaultKind,
    /// What the system says.
    pub text: Seq<char>,
}

impl View for IoFault {
    type V = IoFaultView;

    closed spec fn view(&self) -> IoFaultView {
        IoFaultView { kind: self.kind, text: self.text@ }
    }
}

impl IoFault {
    /// A failure of this kind, with what the system says of it.
    pub fn new(kind: IoFaultKind, text: &str) -> (fault: Self)
        ensures
            fault@ == (IoFaultView { kind, text: text@ }),
    {
        IoFault { kind, text: text.to_owned() }
    }

    /// Why the operation failed.
    pub fn kind(&self) -> (kind: IoFaultKind)
        ensures
            kind == self@.kind,
    {
        self.kind
    }

    /// What the system says.
    pub fn text(&self) -> (text: &str)
        ensures
            text@ == self@.text,
    {
        self.text.as_str()
    }

    /// Whether a file is missing.
    pub fn is_not_found(&self) -> (missing: bool)
        ensures
            missing == (self@.kind == IoFaultKind::NotFound),
    {
        self.kind == IoFaultKind::NotFound
    }
}

/// `before`, the path, and `after`.
pub(crate) fn path_message(before: &str, path: &FilePath, after: &str) -> (text: String)
    ensures
        text@ == before@ + path.spec_text() + after@,
{
    before.to_owned().concat(path.to_text().as_str()).concat(after)
}

} // verus!
