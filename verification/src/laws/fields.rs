//! What a field path gives for a row.

use vstd::prelude::*;
use vstd::string::*;

use super::order::holds_text;
use super::texts::{
    is_all_space, is_tight, law_trimmed_texts_are_tight, law_trimming_takes_whitespace_alone,
};
use crate::field::key::{canonical_char, canonical_form, is_unsearchable, lowercase_of};
use crate::field::name::{is_field_name, name_fault, FieldNameError};
use crate::field::suggest::{distance, is_suggestion, law_distance_zero, tolerance};
use crate::file::FileView;
use crate::instant::formatted_instant;
use crate::note::document::NoteView;
use crate::note::metadata::FieldView;
use crate::note::structure::is_nested_tag;
use crate::note::value::ValueView;
use crate::number::{count_text, whole_bits};
use crate::query::error::QueryError;
use crate::query::field::{
    file_accessor, file_accessors, is_accessor_hint, path_of, path_of_core, path_refusal,
    task_accessor, task_accessors, PathView,
};
use crate::query::record::{
    classes_of, first_value, in_source, resolved, string_texts, text_values, texts_of, QuerySource,
    RecordView,
};
use crate::text::{begins_with, decimal, is_digit, is_letter, is_space, trimmed};

verus! {

/// What the path written as `text` gives for a row; nothing where the text is no
/// path.
pub open spec fn gives(row: RecordView, text: Seq<char>) -> Option<ValueView> {
    match path_of(text) {
        Some(path) => Some(resolved(row, path)),
        None => None,
    }
}

/// A date with this text, or null where there is none.
pub open spec fn date_or_null(text: Option<Seq<char>>) -> ValueView {
    if text is Some {
        ValueView::Date(text.unwrap())
    } else {
        ValueView::Null
    }
}

proof fn lemma_accessor(left: Seq<char>, prefix: Seq<char>, name: Seq<char>, right: Seq<char>)
    requires
        is_all_space(left),
        is_all_space(right),
        prefix.len() == 5,
        !is_space(prefix[0]),
        name.len() > 0,
        !is_space(name.last()),
    ensures
        path_of(left + (prefix + name) + right) == path_of_core(prefix + name),
        (prefix + name).skip(5) == name,
        begins_with(prefix + name, prefix),
{
    let core = prefix + name;
    assert(core[0] == prefix[0]);
    assert(core.last() == name.last());
    law_trimming_takes_whitespace_alone(left, core, right);
    assert(core.skip(5) =~= name);
    assert(core.subrange(0, 5) =~= prefix);
}

/// The accessors of `file` give what is known of the file: its path and folder as
/// they are written, its name, its size, and when it was made and changed. A file
/// that does not tell when it was made was made when it was last changed. The
/// whitespace around a path does not count.
#[verifier::rlimit(40)]
pub proof fn law_file_accessors(row: RecordView, left: Seq<char>, right: Seq<char>)
    requires
        is_all_space(left),
        is_all_space(right),
        row.overrides.len() == 0,
    ensures
        ({
            let file = row.file;
            let made = if file.created_at is Some {
                file.created_at.unwrap()
            } else {
                file.modified_at
            };
            let changed = file.modified_at;
            let day = "%Y-%m-%d"@;
            let second = "%Y-%m-%dT%H:%M:%S"@;
            let made_day = date_or_null(formatted_instant(made.seconds, made.nanos, day));
            let made_at = date_or_null(formatted_instant(made.seconds, made.nanos, second));
            let changed_day = date_or_null(formatted_instant(changed.seconds, changed.nanos, day));
            let changed_at = date_or_null(
                formatted_instant(changed.seconds, changed.nanos, second),
            );
            &&& gives(row, left + ("file."@ + "path"@) + right) == Some(
                ValueView::String(file.path_text),
            )
            &&& gives(row, left + ("file."@ + "name"@) + right) == Some(
                ValueView::String(file.name),
            )
            &&& gives(row, left + ("file."@ + "folder"@) + right) == Some(
                ValueView::String(file.folder_text),
            )
            &&& gives(row, left + ("file."@ + "size"@) + right) matches Some(
                ValueView::Number(size),
            ) && size.bits == whole_bits(file.size as nat) as u64 && size.text == count_text(
                file.size,
            )
            &&& gives(row, left + ("file."@ + "cdate"@) + right) == Some(made_day)
            &&& gives(row, left + ("file."@ + "ctime"@) + right) == Some(made_at)
            &&& gives(row, left + ("file."@ + "created_at"@) + right) == Some(made_at)
            &&& gives(row, left + ("file."@ + "mdate"@) + right) == Some(changed_day)
            &&& gives(row, left + ("file."@ + "mtime"@) + right) == Some(changed_at)
            &&& gives(row, left + ("file."@ + "modified_at"@) + right) == Some(changed_at)
        }),
{
    reveal_strlit("file.");
    reveal_strlit("path");
    reveal_strlit("name");
    reveal_strlit("folder");
    reveal_strlit("size");
    reveal_strlit("cdate");
    reveal_strlit("ctime");
    reveal_strlit("created_at");
    reveal_strlit("mdate");
    reveal_strlit("mtime");
    reveal_strlit("modified_at");
    lemma_accessor(left, "file."@, "path"@, right);
    lemma_accessor(left, "file."@, "name"@, right);
    lemma_accessor(left, "file."@, "folder"@, right);
    lemma_accessor(left, "file."@, "size"@, right);
    lemma_accessor(left, "file."@, "cdate"@, right);
    lemma_accessor(left, "file."@, "ctime"@, right);
    lemma_accessor(left, "file."@, "created_at"@, right);
    lemma_accessor(left, "file."@, "mdate"@, right);
    lemma_accessor(left, "file."@, "mtime"@, right);
    lemma_accessor(left, "file."@, "modified_at"@, right);
    assert("path"@[0] == 'p');
    assert("name"@[0] == 'n');
    assert("size"@[0] == 's');
    assert("folder"@[0] == 'f');
    assert("cdate"@[1] == 'd' && "ctime"@[1] == 't' && "mdate"@[1] == 'd' && "mtime"@[1] == 't');
    assert("cdate"@[0] == 'c' && "ctime"@[0] == 'c' && "mdate"@[0] == 'm' && "mtime"@[0] == 'm');
    assert("created_at"@.len() == 10 && "modified_at"@.len() == 11);
}

/// The accessors of `task` give whether the task of a row is done, and its text;
/// nothing for a row that is no task. `tags` and `inlinks` give lists of texts.
pub proof fn law_task_tag_and_link_paths(row: RecordView, left: Seq<char>, right: Seq<char>)
    requires
        is_all_space(left),
        is_all_space(right),
        row.overrides.len() == 0,
    ensures
        row.task matches Some(task) ==> {
            &&& gives(row, left + ("task."@ + "completed"@) + right) == Some(
                ValueView::Bool(task.completed),
            )
            &&& gives(row, left + ("task."@ + "text"@) + right) == Some(
                ValueView::String(task.text),
            )
        },
        row.task is None ==> {
            &&& gives(row, left + ("task."@ + "completed"@) + right) == Some(ValueView::Null)
            &&& gives(row, left + ("task."@ + "text"@) + right) == Some(ValueView::Null)
        },
        gives(row, left + "tags"@ + right) == Some(
            ValueView::List(
                Seq::new(row.note.tags.len(), |i: int| ValueView::String(row.note.tags[i])),
            ),
        ),
        gives(row, left + "inlinks"@ + right) == Some(
            ValueView::List(
                Seq::new(row.inlinks.len(), |i: int| ValueView::String(row.inlinks[i])),
            ),
        ),
{
    reveal_strlit("file.");
    reveal_strlit("file");
    reveal_strlit("task.");
    reveal_strlit("task");
    reveal_strlit("completed");
    reveal_strlit("text");
    reveal_strlit("tags");
    reveal_strlit("inlinks");
    lemma_accessor(left, "task."@, "completed"@, right);
    lemma_accessor(left, "task."@, "text"@, right);
    assert("task."@[0] == 't' && "file."@[0] == 'f');
    assert(("task."@ + "completed"@)[0] == 't' && ("task."@ + "text"@)[0] == 't');
    assert(!begins_with("task."@ + "completed"@, "file."@)) by {
        assert(("task."@ + "completed"@).subrange(0, 5)[0] == 't');
    }
    assert(!begins_with("task."@ + "text"@, "file."@)) by {
        assert(("task."@ + "text"@).subrange(0, 5)[0] == 't');
    }
    assert("completed"@[0] == 'c' && "text"@[0] == 't');
    law_trimming_takes_whitespace_alone(left, "tags"@, right);
    law_trimming_takes_whitespace_alone(left, "inlinks"@, right);
    assert("tags"@[2] == 'g' && "task"@[2] == 's' && "file"@[0] == 'f');
    assert("inlinks"@[0] == 'i');
    assert(!begins_with("inlinks"@, "file."@)) by {
        assert("inlinks"@.subrange(0, 5)[0] == 'i');
    }
    assert(!begins_with("inlinks"@, "task."@)) by {
        assert("inlinks"@.subrange(0, 5)[0] == 'i');
    }
    let tags = Seq::new(row.note.tags.len(), |i: int| ValueView::String(row.note.tags[i]));
    let links = Seq::new(row.inlinks.len(), |i: int| ValueView::String(row.inlinks[i]));
    assert(text_values(row.note.tags) =~= tags);
    assert(text_values(row.inlinks) =~= links);
}

/// A name without a dot that is none of `file`, `task`, `tags` and `inlinks`.
pub open spec fn is_plain_field(name: Seq<char>) -> bool {
    &&& name.len() > 0
    &&& is_tight(name)
    &&& !name.contains('.')
    &&& name != seq!['f', 'i', 'l', 'e']
    &&& name != seq!['t', 'a', 's', 'k']
    &&& name != seq!['t', 'a', 'g', 's']
    &&& name != seq!['i', 'n', 'l', 'i', 'n', 'k', 's']
}

/// Any other name is that of a frontmatter or inline field, whatever its case and
/// punctuation: names with one canonical form are one path.
pub proof fn law_other_names_are_fields(left: Seq<char>, name: Seq<char>, right: Seq<char>)
    requires
        is_all_space(left),
        is_all_space(right),
        is_plain_field(name),
    ensures
        path_of(left + name + right) == Some(PathView::Metadata(canonical_form(name))),
{
    law_trimming_takes_whitespace_alone(left, name, right);
    reveal_strlit("file.");
    reveal_strlit("task.");
    reveal_strlit("file");
    reveal_strlit("task");
    reveal_strlit("tags");
    reveal_strlit("inlinks");
    assert("file"@ =~= seq!['f', 'i', 'l', 'e']);
    assert("task"@ =~= seq!['t', 'a', 's', 'k']);
    assert("tags"@ =~= seq!['t', 'a', 'g', 's']);
    assert("inlinks"@ =~= seq!['i', 'n', 'l', 'i', 'n', 'k', 's']);
    if begins_with(name, "file."@) {
        assert(name.subrange(0, 5)[4] == '.');
        assert(name.contains('.'));
    }
    if begins_with(name, "task."@) {
        assert(name.subrange(0, 5)[4] == '.');
        assert(name.contains('.'));
    }
}

/// A text with a dot is no path, unless it is `file` or `task`, a dot and one of
/// their accessors; nor is `file` or `task` alone, or a blank text.
pub proof fn law_nothing_else_is_a_path(left: Seq<char>, text: Seq<char>, right: Seq<char>)
    requires
        is_all_space(left),
        is_all_space(right),
        is_tight(text),
        ({
            ||| text.len() == 0
            ||| text == seq!['f', 'i', 'l', 'e']
            ||| text == seq!['t', 'a', 's', 'k']
            ||| text.contains('.') && !begins_with(text, seq!['f', 'i', 'l', 'e', '.'])
                && !begins_with(text, seq!['t', 'a', 's', 'k', '.'])
            ||| text.len() >= 5 && (begins_with(text, seq!['f', 'i', 'l', 'e', '.'])
                || begins_with(text, seq!['t', 'a', 's', 'k', '.'])) && text.skip(5).contains('.')
        }),
    ensures
        path_of(left + text + right) is None,
{
    law_trimming_takes_whitespace_alone(left, text, right);
    reveal_strlit("file.");
    reveal_strlit("task.");
    reveal_strlit("file");
    reveal_strlit("task");
    assert("file"@ =~= seq!['f', 'i', 'l', 'e']);
    assert("task"@ =~= seq!['t', 'a', 's', 'k']);
    assert("file."@ =~= seq!['f', 'i', 'l', 'e', '.']);
    assert("task."@ =~= seq!['t', 'a', 's', 'k', '.']);
}

/// The field at `i` is called `name`, but for case and punctuation.
pub open spec fn is_named(field: FieldView, name: Seq<char>) -> bool {
    ||| field.key == name
    ||| canonical_form(field.key) == name
    ||| canonical_form(field.key) == canonical_form(name)
}

proof fn lemma_first_named(fields: Seq<FieldView>, name: Seq<char>, i: int)
    requires
        0 <= i <= fields.len(),
        forall|j: int| 0 <= j < i ==> !is_named(#[trigger] fields[j], name),
        i < fields.len() ==> is_named(fields[i], name),
    ensures
        first_value(fields, name) == if i < fields.len() {
            Some(fields[i].value)
        } else {
            None
        },
    decreases fields.len(),
{
    if fields.len() > 0 && i > 0 {
        assert(!is_named(fields[0], name));
        let rest = fields.drop_first();
        assert forall|j: int| 0 <= j < i - 1 implies !is_named(#[trigger] rest[j], name) by {
            assert(rest[j] == fields[j + 1]);
        }
        lemma_first_named(rest, name, i - 1);
    }
}

/// A field path gives the value of the first field of that name, those of the
/// frontmatter before those of the body, and null where there is none.
pub proof fn law_the_first_field_of_a_name_counts(
    row: RecordView,
    name: Seq<char>,
    front: Seq<FieldView>,
    i: int,
)
    requires
        row.overrides.len() == 0,
        row.note.frontmatter == Some(front) || (row.note.frontmatter is None && front.len() == 0),
        0 <= i <= front.len() + row.note.inline_fields.len(),
        forall|j: int|
            0 <= j < i ==> !is_named(#[trigger] (front + row.note.inline_fields)[j], name),
        i < front.len() + row.note.inline_fields.len() ==> is_named(
            (front + row.note.inline_fields)[i],
            name,
        ),
    ensures
        resolved(row, PathView::Metadata(name)) == if i < front.len()
            + row.note.inline_fields.len() {
            (front + row.note.inline_fields)[i].value
        } else {
            ValueView::Null
        },
{
    let all = front + row.note.inline_fields;
    assert(row.note.fields() =~= all);
    lemma_first_named(all, name, i);
}

/// What a character becomes in a canonical form: a letter its small letter, a
/// digit, `_` and `-` themselves, whitespace a `-`, other ASCII nothing, and what
/// is beyond ASCII its small form.
pub proof fn law_canonical_characters(c: char)
    ensures
        'A' <= c && c <= 'Z' ==> canonical_char(c).len() == 1 && canonical_char(c)[0] as int
            == c as int + 32,
        ('a' <= c && c <= 'z') || ('0' <= c && c <= '9') || c == '_' || c == '-' ==> canonical_char(
            c,
        ) == seq![c],
        c == ' ' || c == '\t' || c == '\n' || c == '\r' || c == '\u{c}' ==> canonical_char(c)
            == seq!['-'],
        c == '!' || c == '"' || c == '#' || c == '.' || c == ':' || c == '/' || c == '(' || c == ')'
            || c == '\'' || c == '?' || c == ',' || c == '&' || c == '*' || c == '@' ==>
            canonical_char(c).len() == 0,
        c > '\u{7f}' ==> canonical_char(c) == lowercase_of(c),
{
}

/// The candidate that is suggested is the input itself where that is among the
/// candidates.
pub proof fn law_an_exact_candidate_is_suggested(
    candidates: Seq<Seq<char>>,
    input: Seq<char>,
    found: Option<int>,
)
    requires
        candidates.contains(input),
        is_suggestion(candidates, input, found),
    ensures
        found is Some,
        candidates[found.unwrap()] == input,
{
    let i = choose|i: int| 0 <= i < candidates.len() && candidates[i] == input;
    law_distance_zero(input, candidates[i]);
    assert(distance(input, candidates[i]) == 0);
    if found is Some {
        law_distance_zero(input, candidates[found.unwrap()]);
    }
}

/// A candidate is near enough up to half as many edits as the input has
/// characters, and one edit is always near enough.
pub proof fn law_half_the_characters_may_differ(len: nat)
    ensures
        tolerance(len) >= 1,
        len > 2 ==> len <= 2 * tolerance(len) <= len + 1,
        len <= 2 ==> tolerance(len) == 1,
{
}

/// What is suggested is a candidate that takes the fewest edits, and among several
/// the first; nothing is suggested where each candidate is too far away.
pub proof fn law_the_nearest_candidate_is_suggested(
    candidates: Seq<Seq<char>>,
    input: Seq<char>,
    found: Option<int>,
    other: int,
)
    requires
        is_suggestion(candidates, input, found),
        0 <= other < candidates.len(),
    ensures
        match found {
            Some(k) => {
                &&& 0 <= k < candidates.len()
                &&& distance(input, candidates[k]) <= distance(input, candidates[other])
                &&& other < k ==> distance(input, candidates[k]) < distance(
                    input,
                    candidates[other],
                )
                &&& distance(input, candidates[k]) <= tolerance(input.len())
            },
            None => distance(input, candidates[other]) > tolerance(input.len()),
        },
{
}

/// A text that is no path is refused by its name, without whitespace around. What
/// is suggested instead is a path.
pub proof fn law_refused_paths_are_named(text: Seq<char>, error: QueryError)
    requires
        path_refusal(text, error),
    ensures
        error is UnknownFieldPath,
        error->UnknownFieldPath_path@ == trimmed(text),
        error->UnknownFieldPath_suggestion matches Some(better) ==> path_of(better@) is Some,
{
    let path = trimmed(text);
    reveal_strlit("file");
    reveal_strlit("task");
    reveal_strlit("file.");
    reveal_strlit("task.");
    reveal_strlit(".");
    if begins_with(path, "file."@) && path.skip(5).len() > 0 && !path.skip(5).contains('.') {
        let hint = choose|hint: Option<Seq<char>>| #[trigger]
            error.refuses_path(path, hint) && is_accessor_hint(
                "file"@,
                file_accessors(),
                path.skip(5),
                hint,
            );
        lemma_accessors_are_paths(hint, path.skip(5));
    } else if begins_with(path, "task."@) && path.skip(5).len() > 0 && !path.skip(5).contains('.') {
        let hint = choose|hint: Option<Seq<char>>| #[trigger]
            error.refuses_path(path, hint) && is_accessor_hint(
                "task"@,
                task_accessors(),
                path.skip(5),
                hint,
            );
        lemma_accessors_are_paths(hint, path.skip(5));
    }
}

proof fn lemma_accessors_are_paths(hint: Option<Seq<char>>, field: Seq<char>)
    ensures
        is_accessor_hint("file"@, file_accessors(), field, hint) && hint is Some ==> path_of(
            hint.unwrap(),
        ) is Some,
        is_accessor_hint("task"@, task_accessors(), field, hint) && hint is Some ==> path_of(
            hint.unwrap(),
        ) is Some,
{
    let none = Seq::<char>::empty();
    reveal_strlit("file");
    reveal_strlit("task");
    reveal_strlit("file.");
    reveal_strlit("task.");
    reveal_strlit(".");
    reveal_strlit("path");
    reveal_strlit("name");
    reveal_strlit("folder");
    reveal_strlit("size");
    reveal_strlit("created_at");
    reveal_strlit("ctime");
    reveal_strlit("cdate");
    reveal_strlit("modified_at");
    reveal_strlit("mtime");
    reveal_strlit("mdate");
    reveal_strlit("completed");
    reveal_strlit("text");
    assert("file"@ + "."@ =~= "file."@);
    assert("task"@ + "."@ =~= "task."@);
    if hint is Some && is_accessor_hint("file"@, file_accessors(), field, hint) {
        let best = choose|best: int| #[trigger]
            is_suggestion(file_accessors(), field, Some(best)) && hint.unwrap() == "file"@ + "."@
                + file_accessors()[best];
        let name = file_accessors()[best];
        assert(0 <= best < 10);
        assert(best == 0 || best == 1 || best == 2 || best == 3 || best == 4 || best == 5 || best
            == 6 || best == 7 || best == 8 || best == 9);
        assert(file_accessor(name) is Some);
        assert(!name.contains('.') && name.len() > 0 && !is_space(name.last()));
        lemma_accessor(none, "file."@, name, none);
        assert(none + ("file."@ + name) + none =~= hint.unwrap());
    }
    if hint is Some && is_accessor_hint("task"@, task_accessors(), field, hint) {
        let best = choose|best: int| #[trigger]
            is_suggestion(task_accessors(), field, Some(best)) && hint.unwrap() == "task"@ + "."@
                + task_accessors()[best];
        let name = task_accessors()[best];
        assert(0 <= best < 2);
        assert(best == 0 || best == 1);
        assert(task_accessor(name) is Some);
        assert(!name.contains('.') && name.len() > 0 && !is_space(name.last()));
        lemma_accessor(none, "task."@, name, none);
        assert(none + ("task."@ + name) + none =~= hint.unwrap());
        assert(!begins_with(hint.unwrap(), "file."@)) by {
            assert(hint.unwrap().subrange(0, 5)[0] == 't');
        }
    }
}

/// A tag lies under another exactly where it is that tag, or that tag, a slash
/// and more.
pub proof fn law_tags_nest_by_slashes(tag: Seq<char>, parent: Seq<char>, more: Seq<char>)
    ensures
        is_nested_tag(parent, parent),
        is_nested_tag(parent + seq!['/'] + more, parent),
        is_nested_tag(tag, parent) ==> tag == parent || exists|rest: Seq<char>| tag == #[trigger] (
        parent + seq!['/'] + rest),
{
    let prefix = parent.push('/');
    let whole = parent + seq!['/'] + more;
    assert(whole.subrange(0, prefix.len() as int) =~= prefix);
    if is_nested_tag(tag, parent) && tag != parent {
        let rest = tag.skip(prefix.len() as int);
        assert(tag =~= parent + seq!['/'] + rest) by {
            assert(tag =~= tag.subrange(0, prefix.len() as int) + rest);
        }
    }
}

/// A query takes all notes, those with a tag or one nested under it, those in a
/// folder or in one under it, or those that name one of its classes.
pub proof fn law_sources_take_their_notes(source: QuerySource, file: FileView, note: NoteView)
    ensures
        source is All ==> in_source(source, file, note),
        source matches QuerySource::Tag(tag) ==> (in_source(source, file, note) <==> exists|i: int|
            0 <= i < note.tags.len() && (#[trigger] note.tags[i] == tag@ || is_nested_tag(
                note.tags[i],
                tag@,
            ))),
        source matches QuerySource::Folder(folder) ==> (in_source(source, file, note)
            <==> folder@.len() <= file.folder.len() && forall|k: int|
            0 <= k < folder@.len() ==> file.folder[k] == folder@[k]),
        source matches QuerySource::Class { class_field, classes } ==> (in_source(
            source,
            file,
            note,
        ) <==> exists|class: Seq<char>| #[trigger]
            classes_of(note, class_field@).contains(class) && string_texts(classes@).contains(
                class,
            )),
{
    match source {
        QuerySource::Folder(folder) => {
            let own = file.folder;
            let n = folder@.len() as int;
            if n <= own.len() {
                if own.take(n) == folder@ {
                    assert forall|k: int| 0 <= k < n implies own[k] == folder@[k] by {
                        assert(own.take(n)[k] == own[k]);
                    }
                }
                if forall|k: int| 0 <= k < n ==> own[k] == folder@[k] {
                    assert(own.take(n) =~= folder@);
                }
            }
        },
        QuerySource::Class { class_field, classes } => {
            let own = classes_of(note, class_field@);
            if in_source(source, file, note) {
                let i = choose|i: int|
                    0 <= i < own.len() && string_texts(classes@).contains(#[trigger] own[i]);
                assert(own.contains(own[i]));
            }
            if exists|class: Seq<char>| #[trigger]
                own.contains(class) && string_texts(classes@).contains(class) {
                let class = choose|class: Seq<char>| #[trigger]
                    own.contains(class) && string_texts(classes@).contains(class);
                let i = choose|i: int| 0 <= i < own.len() && own[i] == class;
                assert(string_texts(classes@).contains(own[i]));
            }
        },
        _ => {},
    }
}

/// A note is of the class that its class field names, or of all those that it
/// lists. The class field is a field of the frontmatter, the first of that name.
pub proof fn law_class_fields_name_classes(
    note: NoteView,
    class_field: Seq<char>,
    fields: Seq<FieldView>,
    i: int,
    text: Seq<char>,
)
    requires
        note.frontmatter == Some(fields),
        0 <= i < fields.len(),
        is_named(fields[i], class_field),
        forall|j: int| 0 <= j < i ==> !is_named(#[trigger] fields[j], class_field),
    ensures
        holds_text(fields[i].value, text) ==> classes_of(note, class_field)
            == seq![text],
        fields[i].value matches ValueView::List(items) ==> (classes_of(note, class_field).contains(
            text,
        ) <==> exists|k: int|
            0 <= k < items.len() && holds_text(#[trigger] items[k], text)),
{
    lemma_first_named(fields, class_field, i);
    match fields[i].value {
        ValueView::List(items) => {
            lemma_texts_of(items, text);
        },
        _ => {},
    }
}

proof fn lemma_texts_of(items: Seq<ValueView>, text: Seq<char>)
    ensures
        texts_of(items).contains(text) <==> exists|k: int|
            0 <= k < items.len() && holds_text(#[trigger] items[k], text),
    decreases items.len(),
{
    if items.len() > 0 {
        let front = items.drop_last();
        let before = texts_of(front);
        let all = texts_of(items);
        lemma_texts_of(front, text);
        if all.contains(text) {
            let k = choose|k: int| 0 <= k < all.len() && all[k] == text;
            if k < before.len() {
                assert(before[k] == text);
                let m = choose|m: int|
                    0 <= m < front.len() && holds_text(#[trigger] front[m], text);
                assert(holds_text(items[m], text));
            } else {
                assert(holds_text(items[items.len() - 1], text));
            }
        }
        if exists|k: int|
            0 <= k < items.len() && holds_text(#[trigger] items[k], text) {
            let k = choose|k: int|
                0 <= k < items.len() && holds_text(#[trigger] items[k], text);
            if k < front.len() {
                assert(holds_text(front[k], text));
                let m = choose|m: int| 0 <= m < before.len() && before[m] == text;
                assert(all[m] == text);
            } else {
                assert(all[all.len() - 1] == text);
            }
        }
    }
}

/// A count is shown in digits, as long as a double holds it exactly.
pub proof fn law_counts_are_shown_in_digits(n: u64)
    requires
        n <= 9_007_199_254_740_992,
    ensures
        count_text(n) == decimal(n as nat),
{
}

/// A field name is not blank and has no slash. Letters, digits, `_` and `-` make
/// one.
pub proof fn law_field_names(raw: Seq<char>)
    ensures
        is_field_name(raw) ==> !is_all_space(raw) && !raw.contains('/'),
        raw.len() > 0 && (forall|i: int|
            0 <= i < raw.len() ==> is_letter(#[trigger] raw[i]) || is_digit(raw[i]) || raw[i] == '_'
                || raw[i] == '-') ==> is_field_name(raw),
{
    law_trimmed_texts_are_tight(raw);
    if raw.len() > 0 && (forall|i: int|
        0 <= i < raw.len() ==> is_letter(#[trigger] raw[i]) || is_digit(raw[i]) || raw[i] == '_'
            || raw[i] == '-') {
        let last = raw[raw.len() - 1];
        assert(raw.last() == last);
        assert(is_letter(last) || is_digit(last) || last == '_' || last == '-');
        assert(!is_space(last));
        assert(canonical_char(last).len() == 1);
        if raw.contains('/') {
            let i = choose|i: int| 0 <= i < raw.len() && raw[i] == '/';
            assert(is_letter(raw[i]) || is_digit(raw[i]) || raw[i] == '_' || raw[i] == '-');
        }
        assert(!is_unsearchable(raw));
    }
}

/// What is wrong with a name is told: that it is blank, that it has a slash, or
/// that nothing of it can be searched for, the first of these that holds.
pub proof fn law_faults_of_field_names(raw: Seq<char>, error: FieldNameError)
    requires
        name_fault(raw, error),
    ensures
        !is_field_name(raw),
        is_all_space(raw) ==> error is Empty,
        !is_all_space(raw) && raw.contains('/') ==> error is ContainsSlash,
        !is_all_space(raw) && !raw.contains('/') ==> error is EmptyCanonical,
        error matches FieldNameError::ContainsSlash { name } ==> name@ == raw,
        error matches FieldNameError::EmptyCanonical { name } ==> name@ == raw,
{
    law_trimmed_texts_are_tight(raw);
}

} // verus!
