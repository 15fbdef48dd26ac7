//! File metadata and file names.
//!
//! Given a path like `notes/todo.md`, [`FileName`] holds `todo.md` and
//! [`BaseName`] holds `todo`. Dotfiles such as `.gitignore` have no extension.

use vstd::prelude::*;
use vstd::string::*;

use crate::instant::{in_calendar, DateTimeValue};
use crate::path::{
    extension_of, file_extension, file_stem, law_text_names_path, name_of, parent_of, parent_text,
    path_parts, stem_of, FilePath,
};
use crate::text::{ascii_lowered, same_ignoring_ascii_case, same_text};

verus! {

/// Why a path has no file name.
#[derive(Debug)]
pub enum FileNameError {
    /// The path has no final component, such as `/`, `..` or the empty path.
    Missing,
}

impl FileNameError {
    /// The text that describes this error.
    pub open spec fn message_text(self) -> Seq<char> {
        "path has no file name"@
    }

    /// Describes this error.
    pub fn message(&self) -> (text: String)
        ensures
            text@ == self.message_text(),
    {
        "path has no file name".to_owned()
    }
}

/// The final component of a path, with any extension.
#[derive(Debug)]
pub struct FileName {
    text: String,
}

impl View for FileName {
    type V = Seq<char>;

    closed spec fn view(&self) -> Seq<char> {
        self.text@
    }
}

impl FileName {
    /// The final component of `path`.
    pub fn try_from(path: &FilePath) -> (result: Result<Self, FileNameError>)
        ensures
            match result {
                Ok(name) => name_of(path@) == Some(name@),
                Err(FileNameError::Missing) => name_of(path@) is None,
            },
    {
        match path.file_name() {
            Some(name) => Ok(FileName { text: name.to_owned() }),
            None => Err(FileNameError::Missing),
        }
    }

    /// A name without characters.
    pub fn empty() -> (name: Self)
        ensures
            name@ == Seq::<char>::empty(),
    {
        FileName { text: String::new() }
    }

    /// The extension, if there is one.
    pub fn extension(&self) -> (extension: Option<String>)
        ensures
            match extension {
                Some(text) => extension_of(self@) == Some(text@),
                None => extension_of(self@) is None,
            },
    {
        file_extension(self.text.as_str())
    }
}

/// A file name without its extension.
#[derive(Debug)]
pub struct BaseName {
    text: String,
}

impl View for BaseName {
    type V = Seq<char>;

    closed spec fn view(&self) -> Seq<char> {
        self.text@
    }
}

impl BaseName {
    /// Strips the extension.
    pub fn from(name: &FileName) -> (base: Self)
        ensures
            base@ == stem_of(name@),
    {
        BaseName { text: file_stem(name.text.as_str()) }
    }

    /// The stem of the file name of `path`, if it has one.
    pub fn from_path(path: &FilePath) -> (base: Option<Self>)
        ensures
            match base {
                Some(found) => name_of(path@) is Some && found@ == stem_of(
                    name_of(path@).unwrap(),
                ),
                None => name_of(path@) is None,
            },
    {
        match path.stem() {
            Some(text) => Some(BaseName { text }),
            None => None,
        }
    }

    /// The name as text.
    pub fn as_str(&self) -> (text: &str)
        ensures
            text@ == self@,
    {
        self.text.as_str()
    }
}

/// Whether a file is a note.
#[derive(Copy, Clone, Debug, PartialEq, Eq, Structural)]
pub enum FileFormat {
    /// A Markdown file.
    Note,
    /// Any other file.
    Other,
}

/// The format that a file name tells: a note has the extension `md` or
/// `markdown`, in any case.
pub open spec fn format_of_name(name: Seq<char>) -> FileFormat {
    match extension_of(name) {
        Some(extension) => if ascii_lowered(extension) == ascii_lowered("md"@) || ascii_lowered(
            extension,
        ) == ascii_lowered("markdown"@) {
            FileFormat::Note
        } else {
            FileFormat::Other
        },
        None => FileFormat::Other,
    }
}

impl FileFormat {
    /// The format that a file name tells.
    pub fn from_name(name: &FileName) -> (format: Self)
        ensures
            format == format_of_name(name@),
    {
        match name.extension() {
            Some(extension) => if same_ignoring_ascii_case(extension.as_str(), "md")
                || same_ignoring_ascii_case(extension.as_str(), "markdown") {
                FileFormat::Note
            } else {
                FileFormat::Other
            },
            None => FileFormat::Other,
        }
    }
}

/// Contents of a [`FileBase`].
pub struct FileView {
    /// Path relative to the project root.
    pub path: Seq<Seq<char>>,
    /// How the path is written.
    pub path_text: Seq<char>,
    /// File name without its extension.
    pub name: Seq<char>,
    /// Parent directory.
    pub folder: Seq<Seq<char>>,
    /// How the parent directory is written.
    pub folder_text: Seq<char>,
    /// Note or other.
    pub format: FileFormat,
    /// When the file was created, if that is known.
    pub created_at: Option<DateTimeValue>,
    /// When the file was last changed.
    pub modified_at: DateTimeValue,
    /// Size in bytes.
    pub size: u64,
}

/// The file name of a path, or no characters where it has none.
pub open spec fn name_or_empty(path: Seq<Seq<char>>) -> Seq<char> {
    match name_of(path) {
        Some(name) => name,
        None => Seq::empty(),
    }
}

/// The parent of a path, or the empty path where it has none.
pub open spec fn folder_or_empty(path: Seq<Seq<char>>) -> Seq<Seq<char>> {
    match parent_of(path) {
        Some(folder) => folder,
        None => Seq::empty(),
    }
}

/// How the parent of the path written as `text` is written, or nothing where it
/// has none.
pub open spec fn folder_text_or_empty(text: Seq<char>) -> Seq<char> {
    match parent_text(text) {
        Some(folder) => folder,
        None => Seq::empty(),
    }
}

/// The record of the file at the path written as `text`.
pub open spec fn file_at(
    text: Seq<char>,
    format: FileFormat,
    created_at: Option<DateTimeValue>,
    modified_at: DateTimeValue,
    size: u64,
) -> FileView {
    let path = path_parts(text);
    FileView {
        path,
        path_text: text,
        name: stem_of(name_or_empty(path)),
        folder: folder_or_empty(path),
        folder_text: folder_text_or_empty(text),
        format,
        created_at,
        modified_at,
        size,
    }
}

/// Both records say the same of the same file, however its path is written.
pub open spec fn same_file(a: FileView, b: FileView) -> bool {
    &&& a.path == b.path
    &&& a.name == b.name
    &&& a.folder == b.folder
    &&& a.format == b.format
    &&& a.created_at == b.created_at
    &&& a.modified_at == b.modified_at
    &&& a.size == b.size
}

/// Metadata of one regular file under a project root.
#[derive(Debug)]
pub struct FileBase {
    path: FilePath,
    name: BaseName,
    folder: FilePath,
    format: FileFormat,
    created_at: Option<DateTimeValue>,
    modified_at: DateTimeValue,
    size: u64,
}

impl View for FileBase {
    type V = FileView;

    closed spec fn view(&self) -> FileView {
        FileView {
            path: self.path@,
            path_text: self.path.spec_text(),
            name: self.name@,
            folder: self.folder@,
            folder_text: self.folder.spec_text(),
            format: self.format,
            created_at: self.created_at,
            modified_at: self.modified_at,
            size: self.size,
        }
    }
}

fn file_name_or_empty(path: &FilePath) -> (name: FileName)
    ensures
        name@ == name_or_empty(path@),
{
    match FileName::try_from(path) {
        Ok(name) => name,
        Err(_) => FileName::empty(),
    }
}

fn same_instant(a: DateTimeValue, b: DateTimeValue) -> (same: bool)
    ensures
        same == (a == b),
{
    a.seconds == b.seconds && a.nanos == b.nanos
}

impl FileBase {
    /// The record of the file at `relative`, with what the file system says of
    /// it. Name, folder and format follow from the path.
    pub fn from_metadata(
        relative: FilePath,
        created_at: Option<DateTimeValue>,
        modified_at: DateTimeValue,
        size: u64,
    ) -> (file: Self)
        ensures
            file@ == file_at(
                relative.spec_text(),
                format_of_name(name_or_empty(relative@)),
                created_at,
                modified_at,
                size,
            ),
    {
        proof {
            law_text_names_path(relative);
        }
        let file_name = file_name_or_empty(&relative);
        let name = BaseName::from(&file_name);
        let format = FileFormat::from_name(&file_name);
        let folder = match relative.parent() {
            Some(folder) => folder,
            None => FilePath::empty(),
        };
        FileBase { path: relative, name, folder, format, created_at, modified_at, size }
    }

    /// A record for fixtures: of the given format, ten bytes long, changed just
    /// now.
    pub fn for_test(path: &str, format: FileFormat) -> (file: Self)
        ensures
            file@ == file_at(path@, format, None, file@.modified_at, 10),
            in_calendar(file@.modified_at.seconds, file@.modified_at.nanos),
    {
        let mut file = FileBase::from_metadata(
            FilePath::new(path),
            None,
            DateTimeValue::now(),
            10,
        );
        file.format = format;
        file
    }

    /// A note for fixtures.
    pub fn note_for_test(path: &str) -> (file: Self)
        ensures
            file@ == file_at(path@, FileFormat::Note, None, file@.modified_at, 10),
            in_calendar(file@.modified_at.seconds, file@.modified_at.nanos),
    {
        FileBase::for_test(path, FileFormat::Note)
    }

    /// A note of a given size for fixtures.
    pub fn note_with_size_for_test(path: &str, size: u64) -> (file: Self)
        ensures
            file@ == file_at(path@, FileFormat::Note, None, file@.modified_at, size),
            in_calendar(file@.modified_at.seconds, file@.modified_at.nanos),
    {
        let mut file = FileBase::for_test(path, FileFormat::Note);
        file.size = size;
        file
    }

    /// Path relative to the project root.
    pub fn path(&self) -> (path: &FilePath)
        ensures
            path@ == self@.path,
            path.spec_text() == self@.path_text,
    {
        &self.path
    }

    /// File name without its extension.
    pub fn name(&self) -> (name: &BaseName)
        ensures
            name@ == self@.name,
    {
        &self.name
    }

    /// Parent directory, empty for files directly under the project root.
    pub fn folder(&self) -> (folder: &FilePath)
        ensures
            folder@ == self@.folder,
            folder.spec_text() == self@.folder_text,
    {
        &self.folder
    }

    /// Note or other.
    pub fn format(&self) -> (format: FileFormat)
        ensures
            format == self@.format,
    {
        self.format
    }

    /// When the file was created, if that is known.
    pub fn created_at(&self) -> (created_at: Option<DateTimeValue>)
        ensures
            created_at == self@.created_at,
    {
        self.created_at
    }

    /// When the file was created, or last changed where that is not known.
    pub fn created_at_or_modified(&self) -> (instant: DateTimeValue)
        ensures
            instant == match self@.created_at {
                Some(created_at) => created_at,
                None => self@.modified_at,
            },
    {
        match self.created_at {
            Some(created_at) => created_at,
            None => self.modified_at,
        }
    }

    /// When the file was last changed.
    pub fn modified_at(&self) -> (modified_at: DateTimeValue)
        ensures
            modified_at == self@.modified_at,
    {
        self.modified_at
    }

    /// Size in bytes.
    pub fn size(&self) -> (size: u64)
        ensures
            size == self@.size,
    {
        self.size
    }

    /// Whether both records say the same of the same file.
    pub fn same(&self, other: &Self) -> (same: bool)
        ensures
            same == same_file(self@, other@),
    {
        let same_created = match (self.created_at, other.created_at) {
            (Some(a), Some(b)) => same_instant(a, b),
            (None, None) => true,
            _ => false,
        };
        same_created && self.path.same(&other.path) && same_text(
            self.name.as_str(),
            other.name.as_str(),
        ) && self.folder.same(&other.folder) && self.format == other.format && same_instant(
            self.modified_at,
            other.modified_at,
        ) && self.size == other.size
    }

    /// A record that says the same.
    pub fn copy(&self) -> (file: Self)
        ensures
            file@ == self@,
    {
        FileBase {
            path: self.path.copy(),
            name: BaseName { text: self.name.text.clone() },
            folder: self.folder.copy(),
            format: self.format,
            created_at: self.created_at,
            modified_at: self.modified_at,
            size: self.size,
        }
    }
}

} // verus!
