//! Field paths.
//!
//! A field path is `file.<field>`, `task.<field>`, `tags`, `inlinks`, or the
//! key of a frontmatter or inline field.

use vstd::prelude::*;
use vstd::string::*;

use super::error::QueryError;
use crate::field::key::{canonical_form, FieldKey};
use crate::field::suggest::{candidate_texts, closest_match, is_suggestion};
use crate::file::{FileBase, FileView};
use crate::instant::{formatted_instant, DateTimeValue};
use crate::note::value::{FieldValue, ValueView};
use crate::number::{count_text, whole_bits, Number, NumberView};
use crate::text::{
    begins_with, chars_of, contains_char, same_text, starts_with, text_between, trim,
    trimmed,
};

verus! {

/// A `file.<field>` accessor.
#[derive(Copy, Clone, Debug, PartialEq, Eq, Structural)]
pub enum FileField {
    /// The path.
    Path,
    /// The name without its extension.
    Name,
    /// The folder.
    Folder,
    /// The size in bytes.
    Size,
    /// Creation date and time.
    CreatedDateTime,
    /// Creation date.
    CreatedDate,
    /// Modification date and time.
    ModifiedDateTime,
    /// Modification date.
    ModifiedDate,
}

/// A `task.<field>` accessor.
#[derive(Copy, Clone, Debug, PartialEq, Eq, Structural)]
pub enum TaskField {
    /// Completion state.
    Completed,
    /// Text of the item.
    Text,
}

/// All names of `file.<field>` accessors, aliases included.
pub open spec fn file_accessors() -> Seq<Seq<char>> {
    seq![
        "path"@,
        "name"@,
        "folder"@,
        "size"@,
        "created_at"@,
        "ctime"@,
        "cdate"@,
        "modified_at"@,
        "mtime"@,
        "mdate"@,
    ]
}

/// All names of `task.<field>` accessors.
pub open spec fn task_accessors() -> Seq<Seq<char>> {
    seq!["completed"@, "text"@]
}

/// The accessor of this name.
pub open spec fn file_accessor(name: Seq<char>) -> Option<FileField> {
    if name == "path"@ {
        Some(FileField::Path)
    } else if name == "name"@ {
        Some(FileField::Name)
    } else if name == "folder"@ {
        Some(FileField::Folder)
    } else if name == "size"@ {
        Some(FileField::Size)
    } else if name == "created_at"@ || name == "ctime"@ {
        Some(FileField::CreatedDateTime)
    } else if name == "cdate"@ {
        Some(FileField::CreatedDate)
    } else if name == "modified_at"@ || name == "mtime"@ {
        Some(FileField::ModifiedDateTime)
    } else if name == "mdate"@ {
        Some(FileField::ModifiedDate)
    } else {
        None
    }
}

/// The accessor of this name.
pub open spec fn task_accessor(name: Seq<char>) -> Option<TaskField> {
    if name == "completed"@ {
        Some(TaskField::Completed)
    } else if name == "text"@ {
        Some(TaskField::Text)
    } else {
        None
    }
}

/// Exactly the listed names are accessors.
pub proof fn law_accessors_are_the_listed_names(name: Seq<char>)
    ensures
        file_accessor(name) is Some <==> file_accessors().contains(name),
        task_accessor(name) is Some <==> task_accessors().contains(name),
{
    let files = file_accessors();
    assert(files[0] == "path"@ && files[1] == "name"@ && files[2] == "folder"@ && files[3]
        == "size"@ && files[4] == "created_at"@ && files[5] == "ctime"@ && files[6] == "cdate"@
        && files[7] == "modified_at"@ && files[8] == "mtime"@ && files[9] == "mdate"@);
    let tasks = task_accessors();
    assert(tasks[0] == "completed"@ && tasks[1] == "text"@);
}

/// A date, where the instant has one.
pub open spec fn date_value(text: Option<Seq<char>>) -> ValueView {
    match text {
        Some(found) => ValueView::Date(found),
        None => ValueView::Null,
    }
}

/// When a file was created, or last changed where that is not known.
pub open spec fn creation_of(file: FileView) -> DateTimeValue {
    match file.created_at {
        Some(created_at) => created_at,
        None => file.modified_at,
    }
}

/// What an accessor gives for a file.
pub open spec fn file_value(field: FileField, file: FileView) -> ValueView {
    match field {
        FileField::Path => ValueView::String(file.path_text),
        FileField::Name => ValueView::String(file.name),
        FileField::Folder => ValueView::String(file.folder_text),
        FileField::Size => ValueView::Number(
            NumberView {
                bits: whole_bits(file.size as nat) as u64,
                text: count_text(file.size),
            },
        ),
        FileField::CreatedDateTime => date_value(
            formatted_instant(
                creation_of(file).seconds,
                creation_of(file).nanos,
                "%Y-%m-%dT%H:%M:%S"@,
            ),
        ),
        FileField::CreatedDate => date_value(
            formatted_instant(creation_of(file).seconds, creation_of(file).nanos, "%Y-%m-%d"@),
        ),
        FileField::ModifiedDateTime => date_value(
            formatted_instant(
                file.modified_at.seconds,
                file.modified_at.nanos,
                "%Y-%m-%dT%H:%M:%S"@,
            ),
        ),
        FileField::ModifiedDate => date_value(
            formatted_instant(file.modified_at.seconds, file.modified_at.nanos, "%Y-%m-%d"@),
        ),
    }
}

fn date_field(text: Option<String>) -> (value: FieldValue)
    ensures
        value.contents() == date_value(
            match text {
                Some(found) => Some(found@),
                None => None,
            },
        ),
{
    match text {
        Some(found) => FieldValue::Date(found),
        None => FieldValue::Null,
    }
}

impl FileField {
    /// All names of accessors, aliases included.
    pub fn accessor_names() -> (names: Vec<&'static str>)
        ensures
            candidate_texts(names@) == file_accessors(),
    {
        let mut names: Vec<&'static str> = Vec::new();
        names.push("path");
        names.push("name");
        names.push("folder");
        names.push("size");
        names.push("created_at");
        names.push("ctime");
        names.push("cdate");
        names.push("modified_at");
        names.push("mtime");
        names.push("mdate");
        assert(candidate_texts(names@) =~= file_accessors());
        names
    }

    /// The accessor of this name.
    pub fn parse(name: &str) -> (field: Option<Self>)
        ensures
            field == file_accessor(name@),
    {
        if same_text(name, "path") {
            Some(FileField::Path)
        } else if same_text(name, "name") {
            Some(FileField::Name)
        } else if same_text(name, "folder") {
            Some(FileField::Folder)
        } else if same_text(name, "size") {
            Some(FileField::Size)
        } else if same_text(name, "created_at") || same_text(name, "ctime") {
            Some(FileField::CreatedDateTime)
        } else if same_text(name, "cdate") {
            Some(FileField::CreatedDate)
        } else if same_text(name, "modified_at") || same_text(name, "mtime") {
            Some(FileField::ModifiedDateTime)
        } else if same_text(name, "mdate") {
            Some(FileField::ModifiedDate)
        } else {
            None
        }
    }

    /// What this accessor gives for `file`.
    pub fn resolve(self, file: &FileBase) -> (value: FieldValue)
        ensures
            value.contents() == file_value(self, file@),
    {
        match self {
            FileField::Path => FieldValue::String(file.path().to_text()),
            FileField::Name => FieldValue::String(file.name().as_str().to_owned()),
            FileField::Folder => FieldValue::String(file.folder().to_text()),
            FileField::Size => FieldValue::Number(Number::from_u64(file.size())),
            FileField::CreatedDateTime => date_field(
                file.created_at_or_modified().to_datetime_string(),
            ),
            FileField::CreatedDate => date_field(file.created_at_or_modified().to_date_string()),
            FileField::ModifiedDateTime => date_field(file.modified_at().to_datetime_string()),
            FileField::ModifiedDate => date_field(file.modified_at().to_date_string()),
        }
    }
}

impl TaskField {
    /// All names of accessors.
    pub fn accessor_names() -> (names: Vec<&'static str>)
        ensures
            candidate_texts(names@) == task_accessors(),
    {
        let mut names: Vec<&'static str> = Vec::new();
        names.push("completed");
        names.push("text");
        assert(candidate_texts(names@) =~= task_accessors());
        names
    }

    /// The accessor of this name.
    pub fn parse(name: &str) -> (field: Option<Self>)
        ensures
            field == task_accessor(name@),
    {
        if same_text(name, "completed") {
            Some(TaskField::Completed)
        } else if same_text(name, "text") {
            Some(TaskField::Text)
        } else {
            None
        }
    }
}

/// Contents of a [`FieldPath`].
pub enum PathView {
    /// A `file.<field>` accessor.
    File(FileField),
    /// A `task.<field>` accessor.
    Task(TaskField),
    /// The canonical key of a frontmatter or inline field.
    Metadata(Seq<char>),
    /// The tags.
    Tags,
    /// The notes that link here.
    Inlinks,
}

/// A parsed field path.
#[derive(Debug, PartialEq, Eq)]
pub enum FieldPath {
    /// A `file.<field>` accessor.
    File(FileField),
    /// A `task.<field>` accessor.
    Task(TaskField),
    /// The canonical key of a frontmatter or inline field.
    Metadata(String),
    /// The tags.
    Tags,
    /// The notes that link here.
    Inlinks,
}

impl View for FieldPath {
    type V = PathView;

    open spec fn view(&self) -> PathView {
        match self {
            FieldPath::File(field) => PathView::File(*field),
            FieldPath::Task(field) => PathView::Task(*field),
            FieldPath::Metadata(key) => PathView::Metadata(key@),
            FieldPath::Tags => PathView::Tags,
            FieldPath::Inlinks => PathView::Inlinks,
        }
    }
}

/// The path that a text without surrounding whitespace stands for.
pub open spec fn path_of_core(path: Seq<char>) -> Option<PathView> {
    if begins_with(path, "file."@) {
        let field = path.skip(5);
        if field.len() == 0 || field.contains('.') {
            None
        } else {
            match file_accessor(field) {
                Some(found) => Some(PathView::File(found)),
                None => None,
            }
        }
    } else if begins_with(path, "task."@) {
        let field = path.skip(5);
        if field.len() == 0 || field.contains('.') {
            None
        } else {
            match task_accessor(field) {
                Some(found) => Some(PathView::Task(found)),
                None => None,
            }
        }
    } else if path.len() == 0 || path == "file"@ || path == "task"@ || path.contains('.') {
        None
    } else if path == "tags"@ {
        Some(PathView::Tags)
    } else if path == "inlinks"@ {
        Some(PathView::Inlinks)
    } else {
        Some(PathView::Metadata(canonical_form(path)))
    }
}

/// The path that `text` stands for.
pub open spec fn path_of(text: Seq<char>) -> Option<PathView> {
    path_of_core(trimmed(text))
}

/// `hint` is what is suggested for the unknown accessor `field` after `prefix`.
pub open spec fn is_accessor_hint(
    prefix: Seq<char>,
    names: Seq<Seq<char>>,
    field: Seq<char>,
    hint: Option<Seq<char>>,
) -> bool {
    match hint {
        Some(text) => exists|best: int| #[trigger]
            is_suggestion(names, field, Some(best)) && text == prefix + "."@ + names[best],
        None => is_suggestion(names, field, None),
    }
}

/// `error` is how the text `path` without surrounding whitespace is refused.
pub open spec fn refuses_core(path: Seq<char>, error: QueryError) -> bool {
    if begins_with(path, "file."@) && path.skip(5).len() > 0 && !path.skip(5).contains('.') {
        exists|hint: Option<Seq<char>>| #[trigger]
            error.refuses_path(path, hint) && is_accessor_hint(
                "file"@,
                file_accessors(),
                path.skip(5),
                hint,
            )
    } else if begins_with(path, "task."@) && path.skip(5).len() > 0 && !path.skip(5).contains('.') {
        exists|hint: Option<Seq<char>>| #[trigger]
            error.refuses_path(path, hint) && is_accessor_hint(
                "task"@,
                task_accessors(),
                path.skip(5),
                hint,
            )
    } else {
        error.refuses_path(path, None)
    }
}

/// `error` is how the field path `text` is refused.
pub open spec fn path_refusal(text: Seq<char>, error: QueryError) -> bool {
    refuses_core(trimmed(text), error)
}

/// Refuses an unknown accessor, suggesting the nearest known one.
fn accessor_typo_error(path: &str, prefix: &str, names: &Vec<&'static str>, field: &str) -> (error:
    QueryError)
    ensures
        exists|hint: Option<Seq<char>>| #[trigger]
            error.refuses_path(path@, hint) && is_accessor_hint(
                prefix@,
                candidate_texts(names@),
                field@,
                hint,
            ),
{
    match closest_match(names.as_slice(), field) {
        Some(best) => {
            let name = prefix.to_owned().concat(".").concat(names[best]);
            assert(candidate_texts(names@)[best as int] == names@[best as int]@);
            assert(is_suggestion(candidate_texts(names@), field@, Some(best as int)));
            let error = QueryError::unknown_field_path(path, Some(name.as_str()));
            assert(error.refuses_path(path@, Some(name@)));
            error
        },
        None => {
            let error = QueryError::unknown_field_path(path, None);
            assert(error.refuses_path(path@, None));
            error
        },
    }
}

impl FieldPath {
    /// Parses a field path.
    pub fn parse(text: &str) -> (result: Result<Self, QueryError>)
        ensures
            match result {
                Ok(path) => path_of(text@) == Some(path@),
                Err(error) => path_of(text@) is None && path_refusal(text@, error),
            },
    {
        let core = trim(text);
        let path = core.as_str();
        let chars = chars_of(path);
        proof {
            reveal_strlit("file.");
            reveal_strlit("task.");
        }
        if starts_with(path, "file.") {
            let field = text_between(chars.as_slice(), 5, chars.len());
            assert(field@ =~= path@.skip(5));
            if field.as_str().is_empty() || contains_char(field.as_str(), '.') {
                return Err(QueryError::unknown_field_path(path, None));
            }
            return match FileField::parse(field.as_str()) {
                Some(found) => Ok(FieldPath::File(found)),
                None => Err(
                    accessor_typo_error(
                        path,
                        "file",
                        &FileField::accessor_names(),
                        field.as_str(),
                    ),
                ),
            };
        }
        if starts_with(path, "task.") {
            let field = text_between(chars.as_slice(), 5, chars.len());
            assert(field@ =~= path@.skip(5));
            if field.as_str().is_empty() || contains_char(field.as_str(), '.') {
                return Err(QueryError::unknown_field_path(path, None));
            }
            return match TaskField::parse(field.as_str()) {
                Some(found) => Ok(FieldPath::Task(found)),
                None => Err(
                    accessor_typo_error(
                        path,
                        "task",
                        &TaskField::accessor_names(),
                        field.as_str(),
                    ),
                ),
            };
        }
        if path.is_empty() || same_text(path, "file") || same_text(path, "task")
            || contains_char(path, '.') {
            return Err(QueryError::unknown_field_path(path, None));
        }
        if same_text(path, "tags") {
            return Ok(FieldPath::Tags);
        }
        if same_text(path, "inlinks") {
            return Ok(FieldPath::Inlinks);
        }
        Ok(FieldPath::Metadata(FieldKey::canonicalize(path)))
    }

    /// Whether both paths are the same.
    pub fn same(&self, other: &Self) -> (same: bool)
        ensures
            same == (self@ == other@),
    {
        match (self, other) {
            (FieldPath::File(a), FieldPath::File(b)) => *a == *b,
            (FieldPath::Task(a), FieldPath::Task(b)) => *a == *b,
            (FieldPath::Metadata(a), FieldPath::Metadata(b)) => same_text(a.as_str(), b.as_str()),
            (FieldPath::Tags, FieldPath::Tags) => true,
            (FieldPath::Inlinks, FieldPath::Inlinks) => true,
            _ => false,
        }
    }

    /// The same path again.
    pub fn copy(&self) -> (path: Self)
        ensures
            path@ == self@,
    {
        match self {
            FieldPath::File(field) => FieldPath::File(*field),
            FieldPath::Task(field) => FieldPath::Task(*field),
            FieldPath::Metadata(key) => FieldPath::Metadata(key.clone()),
            FieldPath::Tags => FieldPath::Tags,
            FieldPath::Inlinks => FieldPath::Inlinks,
        }
    }
}

} // verus!
