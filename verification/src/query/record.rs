//! Query sources and rows.

use std::sync::Arc;

use vstd::prelude::*;
use vstd::string::*;

use super::error::QueryError;
use super::field::{
    file_value, path_of, path_refusal, FieldPath, FileField, PathView, TaskField,
};
use crate::field::key::canonical_form;
use crate::file::{FileBase, FileView};
use crate::names::has_name_in;
use crate::note::document::{field_ref_views, Note, NoteView};
use crate::note::inline::tag_texts;
use crate::note::metadata::{field_views, FieldView, MetadataField};
use crate::note::structure::{is_nested_tag, Tag};
use crate::note::value::{
    lemma_value_views, value_text, value_views, FieldValue, ValueView,
};
use crate::path::{is_under, path_parts, path_texts, FilePath};
use crate::text::{begins_with, starts_with};

verus! {

/// `candidate` names the key `key`: exactly, or by its canonical form.
pub open spec fn key_matches(key: Seq<char>, candidate: Seq<char>) -> bool {
    key == candidate || canonical_form(key) == candidate || canonical_form(key) == canonical_form(
        candidate,
    )
}

/// The value of the first field whose key `candidate` names.
pub open spec fn first_value(fields: Seq<FieldView>, candidate: Seq<char>) -> Option<ValueView>
    decreases fields.len(),
{
    if fields.len() == 0 {
        None
    } else if key_matches(fields[0].key, candidate) {
        Some(fields[0].value)
    } else {
        first_value(fields.drop_first(), candidate)
    }
}

/// The texts among `values`.
pub open spec fn texts_of(values: Seq<ValueView>) -> Seq<Seq<char>>
    decreases values.len(),
{
    if values.len() == 0 {
        Seq::empty()
    } else {
        let before = texts_of(values.drop_last());
        match value_text(values.last()) {
            Some(text) => before.push(text),
            None => before,
        }
    }
}

/// The classes of a note: the texts that the first frontmatter field named
/// `class_field` holds, alone or in a list.
pub open spec fn classes_of(note: NoteView, class_field: Seq<char>) -> Seq<Seq<char>> {
    match note.frontmatter {
        None => Seq::empty(),
        Some(fields) => match first_value(fields, class_field) {
            None => Seq::empty(),
            Some(ValueView::List(items)) => texts_of(items),
            Some(value) => match value_text(value) {
                Some(text) => seq![text],
                None => Seq::empty(),
            },
        },
    }
}

/// The characters of each text.
pub open spec fn string_texts(texts: Seq<String>) -> Seq<Seq<char>> {
    Seq::new(texts.len(), |i: int| texts[i]@)
}

/// Which notes a query takes in.
#[derive(Debug)]
pub enum QuerySource {
    /// Every note.
    All,
    /// Notes with this tag, or one nested under it.
    Tag(String),
    /// Notes in this folder, or in one under it.
    Folder(FilePath),
    /// Notes of one of these classes.
    Class {
        /// Frontmatter field that names a note's classes.
        class_field: String,
        /// The classes.
        classes: Vec<String>,
    },
}

/// A note belongs to a source.
pub open spec fn in_source(source: QuerySource, file: FileView, note: NoteView) -> bool {
    match source {
        QuerySource::All => true,
        QuerySource::Tag(tag) => exists|i: int|
            0 <= i < note.tags.len() && is_nested_tag(#[trigger] note.tags[i], tag@),
        QuerySource::Folder(folder) => is_under(file.folder, folder@),
        QuerySource::Class { class_field, classes } => exists|i: int|
            0 <= i < classes_of(note, class_field@).len() && string_texts(classes@).contains(
                #[trigger] classes_of(note, class_field@)[i],
            ),
    }
}

fn has_nested_tag(tags: &Vec<Tag>, parent: &str) -> (found: bool)
    ensures
        found == exists|i: int|
            0 <= i < tags@.len() && is_nested_tag(#[trigger] tag_texts(tags@)[i], parent@),
{
    let ghost texts = tag_texts(tags@);
    let mut i: usize = 0;
    while i < tags.len()
        invariant
            i <= tags@.len(),
            texts == tag_texts(tags@),
            forall|j: int| 0 <= j < i ==> !is_nested_tag(#[trigger] texts[j], parent@),
        decreases tags@.len() - i,
    {
        if tags[i].is_nested_under(parent) {
            assert(is_nested_tag(texts[i as int], parent@));
            return true;
        }
        i = i + 1;
    }
    false
}

fn shares_text(values: &Vec<String>, texts: &Vec<String>) -> (found: bool)
    ensures
        found == exists|i: int|
            0 <= i < values@.len() && string_texts(texts@).contains(
                #[trigger] string_texts(values@)[i],
            ),
{
    let ghost views = string_texts(values@);
    let mut i: usize = 0;
    while i < values.len()
        invariant
            i <= values@.len(),
            views == string_texts(values@),
            forall|j: int| 0 <= j < i ==> !string_texts(texts@).contains(#[trigger] views[j]),
        decreases values@.len() - i,
    {
        if has_name_in(texts, values[i].as_str()) {
            assert(string_texts(texts@).contains(views[i as int]));
            return true;
        }
        i = i + 1;
    }
    false
}

/// The value of the first field that `candidate` names.
fn find_value<'a>(fields: &'a Vec<MetadataField>, candidate: &str) -> (value: Option<&'a FieldValue>)
    ensures
        match value {
            Some(found) => first_value(field_views(fields@), candidate@) == Some(
                found.contents(),
            ),
            None => first_value(field_views(fields@), candidate@) is None,
        },
{
    let ghost views = field_views(fields@);
    let mut i: usize = 0;
    assert(views.skip(0) =~= views);
    while i < fields.len()
        invariant
            i <= fields@.len(),
            views == field_views(fields@),
            first_value(views, candidate@) == first_value(views.skip(i as int), candidate@),
        decreases fields@.len() - i,
    {
        assert(views.skip(i as int)[0] == fields@[i as int]@);
        assert(views.skip(i as int).drop_first() =~= views.skip(i + 1));
        if fields[i].key().is_match(candidate) {
            return Some(fields[i].value());
        }
        i = i + 1;
    }
    None
}

/// The classes of a note.
pub fn class_values(note: &Note, class_field: &str) -> (classes: Vec<String>)
    ensures
        string_texts(classes@) == classes_of(note@, class_field@),
{
    let mut classes: Vec<String> = Vec::new();
    assert(string_texts(classes@) =~= Seq::empty());
    if let Some(frontmatter) = note.frontmatter() {
        if let Some(value) = find_value(frontmatter.fields(), class_field) {
            if let FieldValue::List(items) = value {
                let ghost views = value_views(items@);
                proof {
                    lemma_value_views(items@);
                    assert(views.take(0) =~= Seq::empty());
                }
                let mut i: usize = 0;
                while i < items.len()
                    invariant
                        i <= items@.len(),
                        views == value_views(items@),
                        views.len() == items@.len(),
                        forall|k: int|
                            0 <= k < views.len() ==> (#[trigger] views[k]) == items@[k].contents(),
                        string_texts(classes@) == texts_of(views.take(i as int)),
                    decreases items@.len() - i,
                {
                    let ghost before = classes@;
                    proof {
                        let next = views.take(i + 1);
                        assert(next.drop_last() =~= views.take(i as int));
                        assert(next.last() == views[i as int]);
                    }
                    if let Some(text) = items[i].as_str() {
                        classes.push(text.to_owned());
                        assert(string_texts(classes@) =~= string_texts(before).push(text@));
                    }
                    i = i + 1;
                }
                assert(views.take(i as int) =~= views);
            } else if let Some(text) = value.as_str() {
                classes.push(text.to_owned());
                assert(string_texts(classes@) =~= seq![text@]);
            }
        }
    }
    classes
}

impl QuerySource {
    /// The source of a `--from` flag: everything without one, a tag where it
    /// begins with `#`, a folder otherwise.
    pub fn from_flag(flag: Option<&str>) -> (source: Self)
        ensures
            match flag {
                None => source == QuerySource::All,
                Some(value) => if value@.len() > 0 && value@[0] == '#' {
                    source matches QuerySource::Tag(tag) && tag@ == value@
                } else {
                    source matches QuerySource::Folder(folder) && folder@ == path_parts(value@)
                },
            },
    {
        match flag {
            None => QuerySource::All,
            Some(value) => {
                proof {
                    reveal_strlit("#");
                    if value@.len() > 0 {
                        assert(value@.subrange(0, 1)[0] == value@[0]);
                        if value@[0] == '#' {
                            assert(value@.subrange(0, 1) =~= "#"@);
                        }
                    }
                }
                if starts_with(value, "#") {
                    QuerySource::Tag(value.to_owned())
                } else {
                    QuerySource::Folder(FilePath::new(value))
                }
            },
        }
    }

    /// Whether the note of `file` belongs to this source.
    pub fn is_match(&self, file: &FileBase, note: &Note) -> (found: bool)
        ensures
            found == in_source(*self, file@, note@),
    {
        match self {
            QuerySource::All => true,
            QuerySource::Tag(tag) => has_nested_tag(note.tags(), tag.as_str()),
            QuerySource::Folder(folder) => file.folder().starts_with(folder),
            QuerySource::Class { class_field, classes } => shares_text(
                &class_values(note, class_field.as_str()),
                classes,
            ),
        }
    }
}

/// Contents of a task row.
pub struct TaskView {
    /// The task is completed.
    pub completed: bool,
    /// The text of the item.
    pub text: Seq<char>,
}

/// Contents of an [`IndexRecord`].
pub struct RecordView {
    /// The file.
    pub file: FileView,
    /// Its note.
    pub note: NoteView,
    /// Values that replace what a path would give.
    pub overrides: Seq<(PathView, ValueView)>,
    /// The task, for a task row.
    pub task: Option<TaskView>,
    /// How the paths of the notes that link here are written.
    pub inlinks: Seq<Seq<char>>,
}

/// What replaces the value of `path`.
pub open spec fn override_for(overrides: Seq<(PathView, ValueView)>, path: PathView) -> Option<
    ValueView,
>
    decreases overrides.len(),
{
    if overrides.len() == 0 {
        None
    } else if overrides[0].0 == path {
        Some(overrides[0].1)
    } else {
        override_for(overrides.drop_first(), path)
    }
}

/// `overrides` with `path` replaced by `value`: in place where it was replaced
/// before, at the end otherwise.
pub open spec fn with_override(
    overrides: Seq<(PathView, ValueView)>,
    path: PathView,
    value: ValueView,
) -> Seq<(PathView, ValueView)>
    decreases overrides.len(),
{
    if overrides.len() == 0 {
        seq![(path, value)]
    } else if overrides[0].0 == path {
        seq![(path, value)] + overrides.drop_first()
    } else {
        seq![overrides[0]] + with_override(overrides.drop_first(), path, value)
    }
}

/// Each text as a value.
pub open spec fn text_values(texts: Seq<Seq<char>>) -> Seq<ValueView> {
    Seq::new(texts.len(), |i: int| ValueView::String(texts[i]))
}

/// What a path gives for a row.
pub open spec fn resolved(record: RecordView, path: PathView) -> ValueView {
    match override_for(record.overrides, path) {
        Some(value) => value,
        None => match path {
            PathView::File(field) => file_value(field, record.file),
            PathView::Task(field) => match (record.task, field) {
                (None, _) => ValueView::Null,
                (Some(task), TaskField::Completed) => ValueView::Bool(task.completed),
                (Some(task), TaskField::Text) => ValueView::String(task.text),
            },
            PathView::Tags => ValueView::List(text_values(record.note.tags)),
            PathView::Inlinks => ValueView::List(text_values(record.inlinks)),
            PathView::Metadata(key) => match first_value(record.note.fields(), key) {
                Some(value) => value,
                None => ValueView::Null,
            },
        },
    }
}

/// The replaced path gives the new value, and every other path gives what it
/// gave.
pub proof fn law_override_changes_one_path(
    record: RecordView,
    path: PathView,
    value: ValueView,
    other: PathView,
)
    ensures
        ({
            let changed = RecordView {
                overrides: with_override(record.overrides, path, value),
                ..record
            };
            &&& resolved(changed, path) == value
            &&& other != path ==> resolved(changed, other) == resolved(record, other)
        }),
{
    lemma_override(record.overrides, path, value, other);
}

proof fn lemma_override(
    overrides: Seq<(PathView, ValueView)>,
    path: PathView,
    value: ValueView,
    other: PathView,
)
    ensures
        override_for(with_override(overrides, path, value), path) == Some(value),
        other != path ==> override_for(with_override(overrides, path, value), other)
            == override_for(overrides, other),
    decreases overrides.len(),
{
    let with = with_override(overrides, path, value);
    if overrides.len() == 0 {
        assert(with.drop_first() =~= overrides);
    } else if overrides[0].0 == path {
        assert(with.drop_first() =~= overrides.drop_first());
    } else {
        lemma_override(overrides.drop_first(), path, value, other);
        assert(with.drop_first() =~= with_override(overrides.drop_first(), path, value));
    }
}

/// A task of a task row.
#[derive(Debug)]
struct TaskInfo {
    completed: bool,
    text: String,
}

/// One row of a query: a file with its note.
#[derive(Debug)]
pub struct IndexRecord {
    file: FileBase,
    note: Arc<Note>,
    flattened: Vec<(FieldPath, FieldValue)>,
    task: Option<TaskInfo>,
    inlinks: Vec<FilePath>,
}

/// The contents of each override.
pub open spec fn override_views(overrides: Seq<(FieldPath, FieldValue)>) -> Seq<
    (PathView, ValueView),
> {
    Seq::new(overrides.len(), |i: int| (overrides[i].0@, overrides[i].1.contents()))
}

/// The components of each path.
pub open spec fn file_paths(paths: Seq<FilePath>) -> Seq<Seq<Seq<char>>> {
    Seq::new(paths.len(), |i: int| paths[i]@)
}

impl View for IndexRecord {
    type V = RecordView;

    closed spec fn view(&self) -> RecordView {
        RecordView {
            file: self.file@,
            note: (*self.note)@,
            overrides: override_views(self.flattened@),
            task: match self.task {
                Some(task) => Some(TaskView { completed: task.completed, text: task.text@ }),
                None => None,
            },
            inlinks: path_texts(self.inlinks@),
        }
    }
}

/// `Arc::clone` gives another handle to the same value.
#[verifier::external_body]
fn share_note(note: &Arc<Note>) -> (shared: Arc<Note>)
    ensures
        *shared == **note,
{
    Arc::clone(note)
}

impl IndexRecord {
    /// A row for a note.
    pub fn new(file: FileBase, note: Note) -> (record: Self)
        ensures
            record@ == (RecordView {
                file: file@,
                note: note@,
                overrides: Seq::empty(),
                task: None,
                inlinks: Seq::empty(),
            }),
    {
        let record = IndexRecord {
            file,
            note: Arc::new(note),
            flattened: Vec::new(),
            task: None,
            inlinks: Vec::new(),
        };
        assert(record@.overrides =~= Seq::empty());
        assert(record@.inlinks =~= Seq::empty());
        record
    }

    /// This row for one task of the note.
    pub fn with_task(self, completed: bool, text: &str) -> (record: Self)
        ensures
            record@ == (RecordView {
                task: Some(TaskView { completed, text: text@ }),
                ..self@
            }),
    {
        let mut record = self;
        record.task = Some(TaskInfo { completed, text: text.to_owned() });
        record
    }

    /// This row with the notes that link to it.
    pub fn with_inlinks(self, inlinks: Vec<FilePath>) -> (record: Self)
        ensures
            record@ == (RecordView { inlinks: path_texts(inlinks@), ..self@ }),
    {
        let mut record = self;
        record.inlinks = inlinks;
        record
    }

    /// Whether the task is completed, for a task row.
    pub fn task_completed(&self) -> (completed: Option<bool>)
        ensures
            completed == match self@.task {
                Some(task) => Some(task.completed),
                None => None,
            },
    {
        match &self.task {
            Some(task) => Some(task.completed),
            None => None,
        }
    }

    /// The text of the task, for a task row.
    pub fn task_text(&self) -> (text: Option<&str>)
        ensures
            match text {
                Some(found) => self@.task is Some && self@.task.unwrap().text == found@,
                None => self@.task is None,
            },
    {
        match &self.task {
            Some(task) => Some(task.text.as_str()),
            None => None,
        }
    }

    /// The file.
    pub fn file(&self) -> (file: &FileBase)
        ensures
            file@ == self@.file,
    {
        &self.file
    }

    /// The note.
    pub fn note(&self) -> (note: &Note)
        ensures
            note@ == self@.note,
    {
        &*self.note
    }

    /// The notes that link here.
    pub fn inlinks(&self) -> (inlinks: &Vec<FilePath>)
        ensures
            path_texts(inlinks@) == self@.inlinks,
    {
        &self.inlinks
    }

    /// What the field path `path` gives for this row.
    pub fn field(&self, path: &str) -> (result: Result<FieldValue, QueryError>)
        ensures
            match result {
                Ok(value) => path_of(path@) is Some && value.contents() == resolved(
                    self@,
                    path_of(path@).unwrap(),
                ),
                Err(error) => path_of(path@) is None && path_refusal(path@, error),
            },
    {
        match FieldPath::parse(path) {
            Ok(parsed) => Ok(self.resolve(&parsed)),
            Err(error) => Err(error),
        }
    }

    fn find_override(&self, path: &FieldPath) -> (value: Option<&FieldValue>)
        ensures
            match value {
                Some(found) => override_for(self@.overrides, path@) == Some(found.contents()),
                None => override_for(self@.overrides, path@) is None,
            },
    {
        let ghost views = override_views(self.flattened@);
        let mut i: usize = 0;
        assert(views.skip(0) =~= views);
        while i < self.flattened.len()
            invariant
                i <= self.flattened@.len(),
                views == override_views(self.flattened@),
                override_for(views, path@) == override_for(views.skip(i as int), path@),
            decreases self.flattened@.len() - i,
        {
            assert(views.skip(i as int)[0] == views[i as int]);
            assert(views.skip(i as int).drop_first() =~= views.skip(i + 1));
            if self.flattened[i].0.same(path) {
                return Some(&self.flattened[i].1);
            }
            i = i + 1;
        }
        None
    }

    fn tag_list(&self) -> (value: FieldValue)
        ensures
            value.contents() == ValueView::List(text_values(self@.note.tags)),
    {
        let tags = self.note.tags();
        let mut items: Vec<FieldValue> = Vec::new();
        let ghost views = text_values(tag_texts(tags@));
        assert(value_views(items@) =~= views.take(0));
        let mut i: usize = 0;
        while i < tags.len()
            invariant
                i <= tags@.len(),
                views == text_values(tag_texts(tags@)),
                value_views(items@) == views.take(i as int),
            decreases tags@.len() - i,
        {
            let ghost before = items@;
            items.push(FieldValue::String(tags[i].as_str().to_owned()));
            proof {
                assert(items@.drop_last() =~= before);
                assert(items@.last().contents() == views[i as int]);
                assert(views.take(i + 1) =~= views.take(i as int).push(views[i as int]));
            }
            i = i + 1;
        }
        assert(views.take(i as int) =~= views);
        FieldValue::List(items)
    }

    fn inlink_list(&self) -> (value: FieldValue)
        ensures
            value.contents() == ValueView::List(text_values(self@.inlinks)),
    {
        let mut items: Vec<FieldValue> = Vec::new();
        let ghost views = text_values(path_texts(self.inlinks@));
        assert(value_views(items@) =~= views.take(0));
        let mut i: usize = 0;
        while i < self.inlinks.len()
            invariant
                i <= self.inlinks@.len(),
                views == text_values(path_texts(self.inlinks@)),
                value_views(items@) == views.take(i as int),
            decreases self.inlinks@.len() - i,
        {
            let ghost before = items@;
            items.push(FieldValue::String(self.inlinks[i].to_text()));
            proof {
                assert(items@.drop_last() =~= before);
                assert(items@.last().contents() == views[i as int]);
                assert(views.take(i + 1) =~= views.take(i as int).push(views[i as int]));
            }
            i = i + 1;
        }
        assert(views.take(i as int) =~= views);
        FieldValue::List(items)
    }

    fn metadata_value(&self, key: &str) -> (value: FieldValue)
        ensures
            value.contents() == match first_value(self@.note.fields(), key@) {
                Some(found) => found,
                None => ValueView::Null,
            },
    {
        let fields = self.note.fields();
        let ghost views = field_ref_views(fields@);
        let mut i: usize = 0;
        assert(views.skip(0) =~= views);
        while i < fields.len()
            invariant
                i <= fields@.len(),
                views == field_ref_views(fields@),
                views == self@.note.fields(),
                first_value(views, key@) == first_value(views.skip(i as int), key@),
            decreases fields@.len() - i,
        {
            assert(views.skip(i as int)[0] == fields@[i as int]@);
            assert(views.skip(i as int).drop_first() =~= views.skip(i + 1));
            if fields[i].key().is_match(key) {
                return fields[i].value().copy();
            }
            i = i + 1;
        }
        FieldValue::Null
    }

    /// What a parsed path gives for this row.
    pub fn resolve(&self, path: &FieldPath) -> (value: FieldValue)
        ensures
            value.contents() == resolved(self@, path@),
    {
        if let Some(value) = self.find_override(path) {
            return value.copy();
        }
        match path {
            FieldPath::File(field) => field.resolve(&self.file),
            FieldPath::Task(field) => match &self.task {
                None => FieldValue::Null,
                Some(task) => match field {
                    TaskField::Completed => FieldValue::Bool(task.completed),
                    TaskField::Text => FieldValue::String(task.text.clone()),
                },
            },
            FieldPath::Tags => self.tag_list(),
            FieldPath::Inlinks => self.inlink_list(),
            FieldPath::Metadata(key) => self.metadata_value(key.as_str()),
        }
    }

    /// This row with the value of `path` replaced.
    pub fn with_flattened(self, path: FieldPath, value: FieldValue) -> (record: Self)
        ensures
            record@ == (RecordView {
                overrides: with_override(self@.overrides, path@, value.contents()),
                ..self@
            }),
    {
        let mut record = self;
        let ghost views = override_views(record.flattened@);
        let mut i: usize = 0;
        assert(views.skip(0) =~= views);
        assert(views.take(0) + with_override(views, path@, value.contents()) =~= with_override(
            views,
            path@,
            value.contents(),
        ));
        while i < record.flattened.len()
            invariant
                i <= record.flattened@.len(),
                record == self,
                views == override_views(record.flattened@),
                with_override(views, path@, value.contents()) == views.take(i as int)
                    + with_override(views.skip(i as int), path@, value.contents()),
            decreases record.flattened@.len() - i,
        {
            let ghost rest = views.skip(i as int);
            assert(rest[0] == views[i as int]);
            assert(rest.drop_first() =~= views.skip(i + 1));
            if record.flattened[i].0.same(&path) {
                let ghost changed = value.contents();
                let ghost key = path@;
                record.flattened.set(i, (path, value));
                proof {
                    assert(override_views(record.flattened@) =~= views.take(i as int) + (seq![
                        (key, changed),
                    ] + rest.drop_first()));
                }
                return record;
            }
            proof {
                assert(views.take(i as int) + (seq![rest[0]] + with_override(
                    rest.drop_first(),
                    path@,
                    value.contents(),
                )) =~= views.take(i + 1) + with_override(
                    views.skip(i + 1),
                    path@,
                    value.contents(),
                ));
            }
            i = i + 1;
        }
        proof {
            assert(views.skip(i as int) =~= Seq::empty());
            assert(views.take(i as int) =~= views);
        }
        let ghost added = (path@, value.contents());
        record.flattened.push((path, value));
        assert(override_views(record.flattened@) =~= views + seq![added]);
        record
    }

    /// A row with the same contents, which shares the note.
    pub fn copy(&self) -> (record: Self)
        ensures
            record@ == self@,
    {
        let mut flattened: Vec<(FieldPath, FieldValue)> = Vec::new();
        let mut i: usize = 0;
        while i < self.flattened.len()
            invariant
                i <= self.flattened@.len(),
                flattened@.len() == i,
                forall|j: int|
                    0 <= j < i ==> (#[trigger] flattened@[j]).0@ == self.flattened@[j].0@
                        && flattened@[j].1.contents() == self.flattened@[j].1.contents(),
            decreases self.flattened@.len() - i,
        {
            flattened.push((self.flattened[i].0.copy(), self.flattened[i].1.copy()));
            i = i + 1;
        }
        assert(override_views(flattened@) =~= override_views(self.flattened@));
        let inlinks = copy_paths(&self.inlinks);
        IndexRecord {
            file: self.file.copy(),
            note: share_note(&self.note),
            flattened,
            task: match &self.task {
                Some(task) => Some(
                    TaskInfo { completed: task.completed, text: task.text.clone() },
                ),
                None => None,
            },
            inlinks,
        }
    }
}

/// The same paths again, written alike.
pub fn copy_paths(paths: &Vec<FilePath>) -> (copies: Vec<FilePath>)
    ensures
        file_paths(copies@) == file_paths(paths@),
        path_texts(copies@) == path_texts(paths@),
{
    let mut copies: Vec<FilePath> = Vec::new();
    let mut i: usize = 0;
    while i < paths.len()
        invariant
            i <= paths@.len(),
            copies@.len() == i,
            forall|j: int|
                0 <= j < i ==> (#[trigger] copies@[j])@ == paths@[j]@ && copies@[j].spec_text()
                    == paths@[j].spec_text(),
        decreases paths@.len() - i,
    {
        copies.push(paths[i].copy());
        i = i + 1;
    }
    assert(file_paths(copies@) =~= file_paths(paths@));
    assert(path_texts(copies@) =~= path_texts(paths@));
    copies
}

} // verus!
