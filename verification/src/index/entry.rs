//! The rows of an index.

use vstd::prelude::*;
use vstd::string::*;
use vstd::utf8::encode_utf8;

use super::delta::file_views;
use super::inlinks::{
    canonical, edges_of, lemma_sources_of, lemma_targets, link_graph, link_views, linked_targets,
    lists_sources, note_views, targets_of, InlinkMap,
};
use super::sort::{
    ascending, law_search_is_complete, law_sorted_by_path, law_strict_paths_are_distinct, places,
    search_rows, sort_rows, sorted_by_path, strictly_ascending, HasPath, SortedByPath,
};
use super::spelling::{note_texts, spelling_of, writes_source};
use crate::file::{file_at, FileBase, FileFormat, FileView};
use crate::instant::in_calendar;
use crate::note::document::{note_of_outline, parse_markdown, Note, NoteView};
use crate::note::events::markdown_events;
use crate::note::parser::{outline_of, TextStyle};
use crate::path::{
    lemma_path_lt_asymmetric, lemma_path_lt_irreflexive, lemma_path_lt_transitive, path_lt,
    path_texts, FilePath,
};
use crate::query::record::file_paths;

verus! {

/// Contents of a [`FileEntry`].
pub struct EntryView {
    /// The file.
    pub file: FileView,
    /// Its note, for a Markdown file.
    pub note: Option<NoteView>,
    /// The notes that link to it.
    pub inlinks: Seq<Seq<Seq<char>>>,
}

/// One indexed file: its metadata, its note and the links to it.
#[derive(Debug)]
pub struct FileEntry {
    file: FileBase,
    note: Option<Box<Note>>,
    inlinks: Vec<FilePath>,
}

impl View for FileEntry {
    type V = EntryView;

    closed spec fn view(&self) -> EntryView {
        EntryView {
            file: self.file@,
            note: match self.note {
                Some(note) => Some((*note)@),
                None => None,
            },
            inlinks: file_paths(self.inlinks@),
        }
    }
}

impl HasPath for FileEntry {
    open spec fn place(&self) -> Seq<Seq<char>> {
        self@.file.path
    }

    fn row_path(&self) -> (path: &FilePath) {
        self.file.path()
    }
}

/// The contents of a note, where there is one.
pub open spec fn note_view(note: Option<Note>) -> Option<NoteView> {
    match note {
        Some(own) => Some(own@),
        None => None,
    }
}

impl FileEntry {
    /// How the notes that link to it are written.
    pub closed spec fn inlink_texts(self) -> Seq<Seq<char>> {
        path_texts(self.inlinks@)
    }

    /// A row that nothing links to.
    pub fn new(file: FileBase, note: Option<Note>) -> (entry: Self)
        ensures
            entry@ == (EntryView {
                file: file@,
                note: note_view(note),
                inlinks: Seq::empty(),
            }),
            entry.inlink_texts() == Seq::<Seq<char>>::empty(),
    {
        let boxed = match note {
            Some(own) => Some(Box::new(own)),
            None => None,
        };
        let entry = FileEntry { file, note: boxed, inlinks: Vec::new() };
        assert(entry@.inlinks =~= Seq::empty());
        assert(entry.inlink_texts() =~= Seq::empty());
        entry
    }

    /// The file.
    pub fn file(&self) -> (file: &FileBase)
        ensures
            file@ == self@.file,
    {
        &self.file
    }

    /// The note, for a Markdown file.
    pub fn note(&self) -> (note: Option<&Note>)
        ensures
            match note {
                Some(own) => self@.note == Some(own@),
                None => self@.note is None,
            },
    {
        match &self.note {
            Some(own) => Some(own),
            None => None,
        }
    }

    /// The notes that link to this file, in order.
    pub fn inlinks(&self) -> (inlinks: &Vec<FilePath>)
        ensures
            file_paths(inlinks@) == self@.inlinks,
            path_texts(inlinks@) == self.inlink_texts(),
    {
        &self.inlinks
    }

    /// Replaces the notes that link to this file.
    pub fn set_inlinks(&mut self, inlinks: Vec<FilePath>)
        ensures
            final(self)@ == (EntryView { inlinks: file_paths(inlinks@), ..old(self)@ }),
            final(self).inlink_texts() == path_texts(inlinks@),
    {
        self.inlinks = inlinks;
    }
}

/// The contents of each row.
pub open spec fn entry_views(entries: Seq<FileEntry>) -> Seq<EntryView> {
    Seq::new(entries.len(), |i: int| entries[i]@)
}

/// Row `i` writes its inbound link `j` as `text`.
pub open spec fn writes_inlink(
    entries: Seq<FileEntry>,
    text: Seq<char>,
    i: int,
    j: int,
) -> bool {
    &&& 0 <= i < entries.len()
    &&& 0 <= j < entries[i].inlink_texts().len()
    &&& entries[i].inlink_texts()[j] == text
}

/// How the inbound links of all rows are written.
pub open spec fn all_inlink_texts(entries: Seq<FileEntry>) -> Set<Seq<char>> {
    Set::new(|text: Seq<char>| exists|i: int, j: int| writes_inlink(entries, text, i, j))
}

/// Replacing one row adds at most the texts of that row.
proof fn lemma_row_texts(rows: Seq<FileEntry>, at: int, row: FileEntry, allowed: Set<Seq<char>>)
    requires
        0 <= at < rows.len(),
        all_inlink_texts(rows).subset_of(allowed),
        row.inlink_texts().to_set().subset_of(allowed),
    ensures
        all_inlink_texts(rows.update(at, row)).subset_of(allowed),
{
    let next = rows.update(at, row);
    assert forall|text: Seq<char>| all_inlink_texts(next).contains(text) implies allowed.contains(
        text,
    ) by {
        let (i, j) = choose|i: int, j: int| writes_inlink(next, text, i, j);
        if i == at {
            assert(row.inlink_texts().contains(text));
            assert(row.inlink_texts().to_set().contains(text));
        } else {
            assert(writes_inlink(rows, text, i, j));
            assert(all_inlink_texts(rows).contains(text));
        }
    }
}

/// No other row has the path of row `i`.
pub open spec fn only_row(entries: Seq<EntryView>, i: int) -> bool {
    forall|k: int|
        0 <= k < entries.len() && k != i ==> (#[trigger] entries[k]).file.path
            != entries[i].file.path
}

/// `after` is `before` with the links of `edges` handed to their targets. A row
/// that nothing links to keeps what it had. Of several rows with one path some
/// row gets the links.
pub open spec fn links_handed_out(
    before: Seq<EntryView>,
    after: Seq<EntryView>,
    edges: Set<(Seq<Seq<char>>, Seq<Seq<char>>)>,
) -> bool {
    &&& after.len() == before.len()
    &&& forall|i: int| #![trigger after[i]]
        0 <= i < after.len() ==> {
            let path = before[i].file.path;
            &&& after[i].file == before[i].file
            &&& after[i].note == before[i].note
            &&& after[i].inlinks == before[i].inlinks || lists_sources(
                after[i].inlinks,
                edges,
                path,
            )
            &&& linked_targets(edges).contains(path) && only_row(before, i) ==> lists_sources(
                after[i].inlinks,
                edges,
                path,
            )
            &&& !linked_targets(edges).contains(path) ==> after[i].inlinks == before[i].inlinks
        }
}

/// The first `n` entries of `links` were handed out.
spec fn handed_so_far(
    before: Seq<EntryView>,
    after: Seq<EntryView>,
    links: Seq<(Seq<Seq<char>>, Seq<Seq<Seq<char>>>)>,
    n: int,
) -> bool {
    &&& after.len() == before.len()
    &&& forall|i: int| #![trigger after[i]]
        0 <= i < after.len() ==> {
            let path = before[i].file.path;
            &&& after[i].file == before[i].file
            &&& after[i].note == before[i].note
            &&& after[i].inlinks == before[i].inlinks || exists|m: int|
                0 <= m < n && (#[trigger] links[m]).0 == path && after[i].inlinks == links[m].1
            &&& only_row(before, i) ==> forall|m: int|
                0 <= m < n && (#[trigger] links[m]).0 == path ==> after[i].inlinks == links[m].1
        }
}

proof fn lemma_handed_step(
    before: Seq<EntryView>,
    now: Seq<EntryView>,
    next: Seq<EntryView>,
    links: Seq<(Seq<Seq<char>>, Seq<Seq<Seq<char>>>)>,
    n: int,
    at: int,
)
    requires
        handed_so_far(before, now, links, n),
        canonical(links),
        0 <= n < links.len(),
        0 <= at < now.len(),
        now[at].file.path == links[n].0,
        next == now.update(at, EntryView { inlinks: links[n].1, ..now[at] }),
    ensures
        handed_so_far(before, next, links, n + 1),
{
    law_strict_paths_are_distinct(targets_of(links));
    assert forall|i: int| #![trigger next[i]] 0 <= i < next.len() implies {
        let path = before[i].file.path;
        &&& next[i].file == before[i].file
        &&& next[i].note == before[i].note
        &&& next[i].inlinks == before[i].inlinks || exists|m: int|
            0 <= m < n + 1 && (#[trigger] links[m]).0 == path && next[i].inlinks == links[m].1
        &&& only_row(before, i) ==> forall|m: int|
            0 <= m < n + 1 && (#[trigger] links[m]).0 == path ==> next[i].inlinks == links[m].1
    } by {
        let path = before[i].file.path;
        assert(now[i].file == before[i].file);
        assert(now[at].file == before[at].file);
        if i == at {
            assert(links[n].0 == path && next[i].inlinks == links[n].1);
            assert forall|m: int| 0 <= m < n + 1 && (#[trigger] links[m]).0 == path implies
            next[i].inlinks == links[m].1 by {
                assert(targets_of(links)[m] == targets_of(links)[n]);
            }
        } else {
            assert(next[i] == now[i]);
            if now[i].inlinks != before[i].inlinks {
                let m = choose|m: int|
                    0 <= m < n && (#[trigger] links[m]).0 == path && now[i].inlinks == links[m].1;
                assert(0 <= m < n + 1 && links[m].0 == path && next[i].inlinks == links[m].1);
            }
            if only_row(before, i) {
                assert(before[at].file.path != path);
            }
        }
    }
}

proof fn lemma_handed_skip(
    before: Seq<EntryView>,
    now: Seq<EntryView>,
    links: Seq<(Seq<Seq<char>>, Seq<Seq<Seq<char>>>)>,
    n: int,
)
    requires
        handed_so_far(before, now, links, n),
        0 <= n < links.len(),
        forall|i: int| 0 <= i < now.len() ==> (#[trigger] now[i]).file.path != links[n].0,
    ensures
        handed_so_far(before, now, links, n + 1),
{
    assert forall|i: int| #![trigger now[i]] 0 <= i < now.len() implies {
        let path = before[i].file.path;
        &&& now[i].file == before[i].file
        &&& now[i].note == before[i].note
        &&& now[i].inlinks == before[i].inlinks || exists|m: int|
            0 <= m < n + 1 && (#[trigger] links[m]).0 == path && now[i].inlinks == links[m].1
        &&& only_row(before, i) ==> forall|m: int|
            0 <= m < n + 1 && (#[trigger] links[m]).0 == path ==> now[i].inlinks == links[m].1
    } by {
        let path = before[i].file.path;
        if now[i].inlinks != before[i].inlinks {
            let m = choose|m: int|
                0 <= m < n && (#[trigger] links[m]).0 == path && now[i].inlinks == links[m].1;
            assert(0 <= m < n + 1 && links[m].0 == path);
        }
    }
}

proof fn lemma_all_handed(
    before: Seq<EntryView>,
    after: Seq<EntryView>,
    links: Seq<(Seq<Seq<char>>, Seq<Seq<Seq<char>>>)>,
)
    requires
        handed_so_far(before, after, links, links.len() as int),
        canonical(links),
    ensures
        links_handed_out(before, after, edges_of(links)),
{
    let edges = edges_of(links);
    assert forall|i: int| #![trigger after[i]] 0 <= i < after.len() implies {
        let path = before[i].file.path;
        &&& after[i].file == before[i].file
        &&& after[i].note == before[i].note
        &&& after[i].inlinks == before[i].inlinks || lists_sources(after[i].inlinks, edges, path)
        &&& linked_targets(edges).contains(path) && only_row(before, i) ==> lists_sources(
            after[i].inlinks,
            edges,
            path,
        )
        &&& !linked_targets(edges).contains(path) ==> after[i].inlinks == before[i].inlinks
    } by {
        let path = before[i].file.path;
        lemma_targets(links, path);
        if after[i].inlinks != before[i].inlinks {
            let m = choose|m: int|
                0 <= m < links.len() && (#[trigger] links[m]).0 == path && after[i].inlinks
                    == links[m].1;
            lemma_sources_of(links, m);
            assert(targets_of(links)[m] == path);
            assert(targets_of(links).contains(path));
        }
        if linked_targets(edges).contains(path) && only_row(before, i) {
            let m = choose|m: int|
                0 <= m < targets_of(links).len() && targets_of(links)[m] == path;
            assert(links[m].0 == path);
            lemma_sources_of(links, m);
        }
    }
}

/// Hands the links to the rows of their targets. Links to a file without a row
/// are dropped.
pub fn redistribute_inlinks(entries: SortedByPath<FileEntry>, inlinks: InlinkMap) -> (rows:
    SortedByPath<FileEntry>)
    ensures
        links_handed_out(entry_views(entries@), entry_views(rows@), inlinks@),
        all_inlink_texts(rows@).subset_of(
            all_inlink_texts(entries@).union(inlinks.spelling().sources),
        ),
{
    let ghost allowed = all_inlink_texts(entries@).union(inlinks.spelling().sources);
    let ghost before = entry_views(entries@);
    let mut rows = entries.into_vec();
    let ghost paths = places(rows@);
    let links = inlinks.into_entries();
    let ghost views = link_views(links@);
    for link in it: links
        invariant
            views == link_views(it.seq()),
            canonical(views),
            places(rows@) == paths,
            ascending(paths),
            handed_so_far(before, entry_views(rows@), views, it.index()),
            spelling_of(it.seq()).sources.subset_of(allowed),
            all_inlink_texts(rows@).subset_of(allowed),
    {
        let ghost now = entry_views(rows@);
        let ghost unchanged = rows@;
        let ghost n = it.index();
        assert(views[n] == (link.target@, file_paths(link.sources@)));
        match search_rows(&rows, &link.target) {
            Ok(at) => {
                let mut row = rows.remove(at);
                row.set_inlinks(link.sources);
                let ghost changed = row;
                rows.insert(at, row);
                proof {
                    assert forall|text: Seq<char>| changed.inlink_texts().to_set().contains(
                        text,
                    ) implies allowed.contains(text) by {
                        let own = changed.inlink_texts();
                        let j = choose|j: int| 0 <= j < own.len() && own[j] == text;
                        assert(writes_source(it.seq(), text, n, j));
                    }
                    lemma_row_texts(unchanged, at as int, changed, allowed);
                    assert(rows@ =~= unchanged.update(at as int, changed));
                    let next = entry_views(rows@);
                    assert(next =~= now.update(
                        at as int,
                        EntryView { inlinks: views[n].1, ..now[at as int] },
                    ));
                    lemma_handed_step(before, now, next, views, n, at as int);
                    assert(places(rows@) =~= paths) by {
                        assert forall|i: int| 0 <= i < rows@.len() implies rows@[i].place()
                            == paths[i] by {
                            assert(next[i].file == now[i].file);
                        }
                    }
                }
            },
            Err(at) => {
                proof {
                    law_search_is_complete(rows@, link.target@, at as int);
                    assert forall|i: int| 0 <= i < now.len() implies (#[trigger] now[i]).file.path
                        != views[n].0 by {
                        assert(places(rows@)[i] == now[i].file.path);
                    }
                    lemma_handed_skip(before, now, views, n);
                }
            },
        }
    }
    proof {
        lemma_all_handed(before, entry_views(rows@), views);
    }
    SortedByPath::assumed_sorted(rows)
}

/// `notes` from the first on that does not come before `path`.
pub open spec fn notes_from(notes: Seq<NoteView>, path: Seq<Seq<char>>) -> Seq<NoteView>
    decreases notes.len(),
{
    if notes.len() > 0 && path_lt(notes[0].path, path) {
        notes_from(notes.drop_first(), path)
    } else {
        notes
    }
}

/// The note of each file, both in the order of their paths.
pub open spec fn matched_notes(files: Seq<FileView>, notes: Seq<NoteView>) -> Seq<Option<NoteView>>
    decreases files.len(),
{
    if files.len() == 0 {
        Seq::empty()
    } else {
        let rest = notes_from(notes, files[0].path);
        if rest.len() > 0 && rest[0].path == files[0].path {
            seq![Some(rest[0])] + matched_notes(files.drop_first(), rest.drop_first())
        } else {
            seq![None] + matched_notes(files.drop_first(), rest)
        }
    }
}

/// `entries` are the rows of `files`, each with its note and the links of
/// `edges`. Of several rows with one path some row has the links.
pub open spec fn indexed(
    files: Seq<FileView>,
    notes: Seq<Option<NoteView>>,
    edges: Set<(Seq<Seq<char>>, Seq<Seq<char>>)>,
    entries: Seq<EntryView>,
) -> bool {
    &&& entries.len() == files.len()
    &&& forall|i: int| #![trigger entries[i]]
        0 <= i < entries.len() ==> {
            &&& entries[i].file == files[i]
            &&& entries[i].note == notes[i]
            &&& entries[i].inlinks.len() == 0 || lists_sources(
                entries[i].inlinks,
                edges,
                files[i].path,
            )
            &&& only_row(entries, i) ==> lists_sources(entries[i].inlinks, edges, files[i].path)
        }
}

/// `entries` are the rows of `files` with `notes`, matched by path, and the
/// links of `edges`.
pub open spec fn assembled(
    files: Seq<FileView>,
    notes: Seq<NoteView>,
    edges: Set<(Seq<Seq<char>>, Seq<Seq<char>>)>,
    entries: Seq<EntryView>,
) -> bool {
    indexed(files, matched_notes(files, notes), edges, entries)
}

/// The notes that `queue` holds, which has them last first.
pub open spec fn queued(queue: Seq<Note>) -> Seq<NoteView> {
    Seq::new(queue.len(), |i: int| queue[queue.len() - 1 - i]@)
}

/// The items in the opposite order.
pub(crate) fn reversed<T>(items: Vec<T>) -> (queue: Vec<T>)
    ensures
        queue@.len() == items@.len(),
        forall|i: int|
            0 <= i < queue@.len() ==> (#[trigger] queue@[i]) == items@[items@.len() - 1 - i],
{
    let ghost all = items@;
    let mut items = items;
    let mut queue: Vec<T> = Vec::new();
    while items.len() > 0
        invariant
            items@.len() <= all.len(),
            items@ == all.take(items@.len() as int),
            queue@.len() == all.len() - items@.len(),
            forall|i: int|
                0 <= i < queue@.len() ==> (#[trigger] queue@[i]) == all[all.len() - 1 - i],
        decreases items@.len(),
    {
        if let Some(item) = items.pop() {
            queue.push(item);
        }
    }
    queue
}

/// The contents of each note, where there is one.
pub open spec fn option_views(notes: Seq<Option<Note>>) -> Seq<Option<NoteView>> {
    Seq::new(notes.len(), |i: int| note_view(notes[i]))
}

/// The note of each file, both in the order of their paths.
pub fn match_notes(files: &Vec<FileBase>, notes: Vec<Note>) -> (matched: Vec<Option<Note>>)
    ensures
        option_views(matched@) == matched_notes(file_views(files@), note_views(notes@)),
{
    let ghost file_list = file_views(files@);
    let ghost whole = matched_notes(file_list, note_views(notes@));
    let ghost note_list = note_views(notes@);
    let mut queue = reversed(notes);
    let mut matched: Vec<Option<Note>> = Vec::new();
    proof {
        assert(queued(queue@) =~= note_list);
        assert(file_list.skip(0) =~= file_list);
        assert(option_views(matched@) + whole =~= whole);
    }
    let mut i: usize = 0;
    while i < files.len()
        invariant
            i <= files@.len(),
            file_list == file_views(files@),
            option_views(matched@) + matched_notes(file_list.skip(i as int), queued(queue@))
                == whole,
        decreases files@.len() - i,
    {
        let ghost done = option_views(matched@);
        let ghost rest = file_list.skip(i as int);
        let ghost waiting = queued(queue@);
        let note = take_note(&mut queue, files[i].path());
        let ghost view = note_view(note);
        proof {
            assert(rest[0] == files@[i as int]@);
            assert(rest.drop_first() =~= file_list.skip(i + 1));
            let tail = matched_notes(file_list.skip(i + 1), queued(queue@));
            assert(matched_notes(rest, waiting) == seq![view] + tail);
            assert(done + (seq![view] + tail) =~= done.push(view) + tail);
        }
        matched.push(note);
        assert(option_views(matched@) =~= done.push(view));
        i = i + 1;
    }
    proof {
        assert(matched_notes(file_list.skip(i as int), queued(queue@)) =~= Seq::empty());
        assert(option_views(matched@) =~= whole);
    }
    matched
}

fn drop_earlier(queue: &mut Vec<Note>, path: &FilePath)
    ensures
        queued(final(queue)@) == notes_from(queued(old(queue)@), path@),
{
    let ghost start = queued(queue@);
    while queue.len() > 0 && queue[queue.len() - 1].path().before(path)
        invariant
            notes_from(start, path@) == notes_from(queued(queue@), path@),
        decreases queue@.len(),
    {
        let ghost now = queued(queue@);
        assert(now[0] == queue@[queue@.len() - 1]@);
        queue.pop();
        assert(queued(queue@) =~= now.drop_first());
    }
    proof {
        if queue@.len() > 0 {
            assert(queued(queue@)[0] == queue@[queue@.len() - 1]@);
        }
    }
}

fn take_note(queue: &mut Vec<Note>, path: &FilePath) -> (note: Option<Note>)
    ensures
        ({
            let rest = notes_from(queued(old(queue)@), path@);
            if rest.len() > 0 && rest[0].path == path@ {
                &&& note is Some
                &&& note.unwrap()@ == rest[0]
                &&& queued(final(queue)@) == rest.drop_first()
            } else {
                &&& note is None
                &&& queued(final(queue)@) == rest
            }
        }),
{
    drop_earlier(queue, path);
    let ghost rest = queued(queue@);
    let n: usize = queue.len();
    if n > 0 {
        assert(rest[0] == queue@[n - 1]@);
        if queue[n - 1].path().same(path) {
            let note = queue.pop();
            assert(queued(queue@) =~= rest.drop_first());
            return note;
        }
    }
    None
}

/// The files, their notes and the links between them.
#[derive(Debug)]
pub struct WorkspaceIndex {
    entries: Vec<FileEntry>,
}

impl View for WorkspaceIndex {
    type V = Seq<EntryView>;

    closed spec fn view(&self) -> Seq<EntryView> {
        entry_views(self.entries@)
    }
}

/// The notes of rows that all have one.
pub open spec fn row_notes(entries: Seq<EntryView>) -> Seq<NoteView> {
    Seq::new(entries.len(), |i: int| entries[i].note->Some_0)
}

/// The path of each row.
pub open spec fn row_paths(entries: Seq<EntryView>) -> Seq<Seq<Seq<char>>> {
    Seq::new(entries.len(), |i: int| entries[i].file.path)
}

/// The fixture that `entry` is: a note of the given text.
pub open spec fn is_fixture(entry: EntryView, path: Seq<char>, source: Seq<char>) -> bool {
    &&& entry.note == Some(
        note_of_outline(
            path,
            outline_of(markdown_events(source, true, true, true), TextStyle::Verbatim),
        ),
    )
    &&& is_fixture_file(entry.file, path, source)
}

/// The file of a fixture: a note as long as its text, changed just now.
pub open spec fn is_fixture_file(file: FileView, path: Seq<char>, source: Seq<char>) -> bool {
    let size = encode_utf8(source).len() as usize as u64;
    &&& file == file_at(path, FileFormat::Note, None, file.modified_at, size)
    &&& in_calendar(file.modified_at.seconds, file.modified_at.nanos)
}

/// One of `entries` is the fixture of the given text.
pub open spec fn has_fixture(entries: Seq<EntryView>, path: Seq<char>, source: Seq<char>) -> bool {
    exists|i: int| 0 <= i < entries.len() && is_fixture(#[trigger] entries[i], path, source)
}

/// `entry` is the fixture of one of `notes`.
pub open spec fn is_some_fixture(entry: EntryView, notes: Seq<(&str, &str)>) -> bool {
    exists|k: int|
        0 <= k < notes.len() && is_fixture(entry, (#[trigger] notes[k]).0@, notes[k].1@)
}

impl WorkspaceIndex {
    /// How the inbound links of all rows are written.
    pub closed spec fn inlink_texts(self) -> Set<Seq<char>> {
        all_inlink_texts(self.entries@)
    }

    /// An index of these rows.
    pub fn new(entries: Vec<FileEntry>) -> (index: Self)
        ensures
            index@ == entry_views(entries@),
            index.inlink_texts() == all_inlink_texts(entries@),
    {
        WorkspaceIndex { entries }
    }

    /// An index of `files`, each with its note and the links to it.
    pub fn assemble(
        files: SortedByPath<FileBase>,
        notes: SortedByPath<Note>,
        inlinks: InlinkMap,
    ) -> (index: Self)
        ensures
            assembled(file_views(files@), note_views(notes@), inlinks@, index@),
            index.inlink_texts().subset_of(inlinks.spelling().sources),
    {
        let matched = match_notes(files.as_rows(), notes.into_vec());
        proof {
            lemma_matched_len(file_views(files@), note_views(notes@));
        }
        WorkspaceIndex::from_parts(files, matched, inlinks)
    }

    /// An index of `files`, where the note of file `i` is `notes[i]`.
    pub fn from_parts(
        files: SortedByPath<FileBase>,
        notes: Vec<Option<Note>>,
        inlinks: InlinkMap,
    ) -> (index: Self)
        requires
            notes@.len() == files@.len(),
        ensures
            indexed(file_views(files@), option_views(notes@), inlinks@, index@),
            index.inlink_texts().subset_of(inlinks.spelling().sources),
    {
        let ghost file_list = file_views(files@);
        let ghost note_list = option_views(notes@);
        let ghost edges = inlinks@;
        let files = files.into_vec();
        let ghost paths = places(files@);
        let ghost all_notes = notes@;
        let mut queue = reversed(notes);
        let mut entries: Vec<FileEntry> = Vec::new();
        for file in it: files
            invariant
                file_list == file_views(it.seq()),
                note_list == option_views(all_notes),
                all_notes.len() == it.seq().len(),
                queue@.len() == all_notes.len() - it.index(),
                forall|k: int|
                    0 <= k < queue@.len() ==> (#[trigger] queue@[k]) == all_notes[all_notes.len()
                        - 1 - k],
                entries@.len() == it.index(),
                forall|i: int|
                    0 <= i < entries@.len() ==> (#[trigger] entries@[i])@ == (EntryView {
                        file: file_list[i],
                        note: note_list[i],
                        inlinks: Seq::empty(),
                    }),
                forall|i: int|
                    0 <= i < entries@.len() ==> (#[trigger] entries@[i]).inlink_texts().len() == 0,
        {
            assert(file_list[it.index()] == file@);
            let note = match queue.pop() {
                Some(note) => note,
                None => None,
            };
            assert(note == all_notes[it.index()]);
            entries.push(FileEntry::new(file, note));
        }
        proof {
            assert(places(entries@) =~= paths) by {
                assert forall|i: int| 0 <= i < entries@.len() implies entries@[i].place()
                    == paths[i] by {
                    assert(file_list[i].path == paths[i]);
                }
            }
        }
        let ghost before = entry_views(entries@);
        let handed = redistribute_inlinks(SortedByPath::assumed_sorted(entries), inlinks);
        let index = WorkspaceIndex { entries: handed.into_vec() };
        proof {
            lemma_indexed(file_list, note_list, edges, before, index@);
        }
        index
    }

    /// An index of notes for fixtures, each given by its path and its Markdown
    /// text.
    pub fn new_test(notes: &[(&str, &str)]) -> (index: Self)
        ensures
            index@.len() == notes@.len(),
            forall|i: int, j: int|
                0 <= i < j < index@.len() ==> !path_lt(
                    (#[trigger] index@[j]).file.path,
                    (#[trigger] index@[i]).file.path,
                ),
            forall|k: int|
                0 <= k < notes@.len() ==> has_fixture(
                    index@,
                    (#[trigger] notes@[k]).0@,
                    notes@[k].1@,
                ),
            forall|i: int|
                0 <= i < index@.len() ==> #[trigger] is_some_fixture(index@[i], notes@),
            forall|i: int|
                0 <= i < index@.len() && only_row(index@, i) ==> lists_sources(
                    (#[trigger] index@[i]).inlinks,
                    link_graph(row_notes(index@), row_paths(index@)),
                    index@[i].file.path,
                ),
            forall|text: Seq<char>| #[trigger]
                index.inlink_texts().contains(text) ==> exists|k: int|
                    0 <= k < notes@.len() && (#[trigger] notes@[k]).0@ == text,
    {
        let mut fixtures: Vec<Fixture> = Vec::new();
        let mut i: usize = 0;
        while i < notes.len()
            invariant
                i <= notes@.len(),
                fixtures@.len() == i,
                forall|k: int|
                    0 <= k < i ==> (#[trigger] fixtures@[k]).shows(notes@[k].0@, notes@[k].1@),
            decreases notes@.len() - i,
        {
            let path = notes[i].0;
            let source = notes[i].1;
            let note = parse_markdown(FilePath::new(path), source);
            let file = FileBase::note_with_size_for_test(path, source.len() as u64);
            fixtures.push(Fixture { file, note });
            i = i + 1;
        }
        let ghost unsorted = fixtures@;
        let sorted = sort_rows(fixtures);
        proof {
            law_sorted_by_path(unsorted);
        }
        let ghost all = sorted@;
        let mut files: Vec<FileBase> = Vec::new();
        let mut parsed: Vec<Note> = Vec::new();
        for fixture in it: sorted
            invariant
                it.seq() == all,
                files@.len() == it.index(),
                parsed@.len() == it.index(),
                forall|k: int| 0 <= k < files@.len() ==> (#[trigger] files@[k]) == all[k].file,
                forall|k: int| 0 <= k < parsed@.len() ==> (#[trigger] parsed@[k]) == all[k].note,
        {
            files.push(fixture.file);
            parsed.push(fixture.note);
        }
        proof {
            lemma_fixture_rows(unsorted, all, files@, parsed@);
        }
        let ghost note_rows = parsed@;
        let ghost file_rows = files@;
        let files = SortedByPath::assumed_sorted(files);
        let inlinks = InlinkMap::new(&parsed, &files);
        let notes_sorted = SortedByPath::assumed_sorted(parsed);
        let index = WorkspaceIndex::assemble(files, notes_sorted, inlinks);
        proof {
            lemma_fixture_index(unsorted, all, file_rows, note_rows, index@);
            lemma_fixture_texts(notes@, unsorted, all, note_rows, index.inlink_texts());
            lemma_fixtures_shown(notes@, unsorted, index@);
        }
        index
    }

    /// The rows, in the order of their paths.
    pub fn entries(&self) -> (entries: &Vec<FileEntry>)
        ensures
            entry_views(entries@) == self@,
            all_inlink_texts(entries@) == self.inlink_texts(),
    {
        &self.entries
    }

    /// The row at `position`.
    pub fn entry_at(&self, position: RowIndex) -> (entry: &FileEntry)
        requires
            position@ < self@.len(),
        ensures
            entry@ == self@[position@ as int],
            entry.inlink_texts().to_set().subset_of(self.inlink_texts()),
    {
        proof {
            let at = position.position as int;
            let own = self.entries@[at].inlink_texts();
            assert forall|text: Seq<char>| own.to_set().contains(text) implies
                self.inlink_texts().contains(text) by {
                let j = choose|j: int| 0 <= j < own.len() && own[j] == text;
                assert(writes_inlink(self.entries@, text, at, j));
            }
        }
        &self.entries[position.position]
    }
}

/// What is written as the notes of fixtures is written as one of the given paths.
proof fn lemma_fixture_texts(
    notes: Seq<(&str, &str)>,
    unsorted: Seq<Fixture>,
    sorted: Seq<Fixture>,
    note_rows: Seq<Note>,
    found: Set<Seq<char>>,
)
    requires
        unsorted.len() == notes.len(),
        forall|k: int|
            0 <= k < notes.len() ==> (#[trigger] unsorted[k]).shows(notes[k].0@, notes[k].1@),
        note_rows.len() == sorted.len(),
        forall|k: int| 0 <= k < note_rows.len() ==> (#[trigger] note_rows[k]) == sorted[k].note,
        forall|k: int| 0 <= k < sorted.len() ==> unsorted.contains(#[trigger] sorted[k]),
        found.subset_of(note_texts(note_views(note_rows)).to_set()),
    ensures
        forall|text: Seq<char>| #[trigger]
            found.contains(text) ==> exists|k: int|
                0 <= k < notes.len() && (#[trigger] notes[k]).0@ == text,
{
    assert forall|text: Seq<char>| #[trigger] found.contains(text) implies exists|k: int|
        0 <= k < notes.len() && (#[trigger] notes[k]).0@ == text by {
        let texts = note_texts(note_views(note_rows));
        assert(texts.to_set().contains(text));
        let m = choose|m: int| 0 <= m < texts.len() && texts[m] == text;
        assert(note_rows[m] == sorted[m].note);
        assert(unsorted.contains(sorted[m]));
        let k = choose|k: int| 0 <= k < unsorted.len() && unsorted[k] == sorted[m];
        assert(unsorted[k].shows(notes[k].0@, notes[k].1@));
        assert(notes[k].0@ == text);
    }
}

/// An index of fixtures shows each note that was given, and nothing else.
proof fn lemma_fixtures_shown(
    notes: Seq<(&str, &str)>,
    unsorted: Seq<Fixture>,
    index: Seq<EntryView>,
)
    requires
        unsorted.len() == notes.len(),
        forall|k: int|
            0 <= k < notes.len() ==> (#[trigger] unsorted[k]).shows(notes[k].0@, notes[k].1@),
        forall|k: int|
            0 <= k < unsorted.len() ==> exists|i: int|
                0 <= i < index.len() && (#[trigger] index[i]).file == (#[trigger] unsorted[k]).file@
                    && index[i].note == Some(unsorted[k].note@),
        forall|i: int| 0 <= i < index.len() ==> #[trigger] came_from(index[i], unsorted),
    ensures
        forall|k: int|
            0 <= k < notes.len() ==> has_fixture(index, (#[trigger] notes[k]).0@, notes[k].1@),
        forall|i: int| 0 <= i < index.len() ==> #[trigger] is_some_fixture(index[i], notes),
{
    assert forall|k: int| 0 <= k < notes.len() implies has_fixture(
        index,
        (#[trigger] notes[k]).0@,
        notes[k].1@,
    ) by {
        assert(unsorted[k].shows(notes[k].0@, notes[k].1@));
        let i = choose|i: int|
            0 <= i < index.len() && (#[trigger] index[i]).file == unsorted[k].file@
                && index[i].note == Some(unsorted[k].note@);
        assert(is_fixture(index[i], notes[k].0@, notes[k].1@));
    }
    assert forall|i: int| 0 <= i < index.len() implies #[trigger] is_some_fixture(
        index[i],
        notes,
    ) by {
        assert(came_from(index[i], unsorted));
        let k = choose|k: int|
            0 <= k < unsorted.len() && index[i].file == (#[trigger] unsorted[k]).file@
                && index[i].note == Some(unsorted[k].note@);
        assert(unsorted[k].shows(notes[k].0@, notes[k].1@));
        assert(is_fixture(index[i], notes[k].0@, notes[k].1@));
    }
}

/// The position of a row.
#[derive(Copy, Clone, Debug)]
pub struct RowIndex {
    position: usize,
}

impl View for RowIndex {
    type V = nat;

    closed spec fn view(&self) -> nat {
        self.position as nat
    }
}

impl RowIndex {
    /// The row at this position.
    pub fn new(position: usize) -> (index: Self)
        ensures
            index@ == position,
    {
        RowIndex { position }
    }
}

proof fn lemma_indexed(
    files: Seq<FileView>,
    notes: Seq<Option<NoteView>>,
    edges: Set<(Seq<Seq<char>>, Seq<Seq<char>>)>,
    before: Seq<EntryView>,
    after: Seq<EntryView>,
)
    requires
        before.len() == files.len(),
        forall|i: int|
            0 <= i < before.len() ==> (#[trigger] before[i]) == (EntryView {
                file: files[i],
                note: notes[i],
                inlinks: Seq::empty(),
            }),
        links_handed_out(before, after, edges),
    ensures
        indexed(files, notes, edges, after),
{
    assert forall|i: int| #![trigger after[i]] 0 <= i < after.len() implies {
        &&& after[i].file == files[i]
        &&& after[i].note == notes[i]
        &&& after[i].inlinks.len() == 0 || lists_sources(after[i].inlinks, edges, files[i].path)
        &&& only_row(after, i) ==> lists_sources(after[i].inlinks, edges, files[i].path)
    } by {
        let path = files[i].path;
        assert(before[i].file == files[i]);
        if only_row(after, i) {
            assert forall|k: int| 0 <= k < before.len() && k != i implies (
            #[trigger] before[k]).file.path != before[i].file.path by {
                assert(after[k].file == before[k].file);
            }
            assert(only_row(before, i));
            if !linked_targets(edges).contains(path) {
                assert(after[i].inlinks == Seq::<Seq<Seq<char>>>::empty());
                assert forall|source: Seq<Seq<char>>| #[trigger]
                    after[i].inlinks.contains(source) <==> edges.contains((path, source)) by {}
            }
        }
    }
}

/// A note for a test index.
struct Fixture {
    file: FileBase,
    note: Note,
}

impl Fixture {
    spec fn shows(self, path: Seq<char>, source: Seq<char>) -> bool {
        &&& self.note@ == note_of_outline(
            path,
            outline_of(markdown_events(source, true, true, true), TextStyle::Verbatim),
        )
        &&& is_fixture_file(self.file@, path, source)
    }
}

impl HasPath for Fixture {
    closed spec fn place(&self) -> Seq<Seq<char>> {
        self.note@.path
    }

    fn row_path(&self) -> (path: &FilePath) {
        self.note.path()
    }
}

proof fn lemma_fixture_rows(
    unsorted: Seq<Fixture>,
    sorted: Seq<Fixture>,
    files: Seq<FileBase>,
    notes: Seq<Note>,
)
    requires
        sorted == sorted_by_path(unsorted),
        forall|k: int|
            0 <= k < unsorted.len() ==> (#[trigger] unsorted[k]).file@.path
                == unsorted[k].note@.path,
        files.len() == sorted.len(),
        notes.len() == sorted.len(),
        forall|k: int| 0 <= k < files.len() ==> (#[trigger] files[k]) == sorted[k].file,
        forall|k: int| 0 <= k < notes.len() ==> (#[trigger] notes[k]) == sorted[k].note,
    ensures
        sorted.len() == unsorted.len(),
        forall|k: int|
            0 <= k < sorted.len() ==> (#[trigger] sorted[k]).file@.path == sorted[k].note@.path,
        forall|k: int| 0 <= k < unsorted.len() ==> sorted.contains(#[trigger] unsorted[k]),
        forall|k: int| 0 <= k < sorted.len() ==> unsorted.contains(#[trigger] sorted[k]),
        ascending(places(files)),
        ascending(places(notes)),
{
    broadcast use vstd::seq_lib::group_to_multiset_ensures;

    law_sorted_by_path(unsorted);
    assert(sorted.to_multiset().len() == unsorted.to_multiset().len());
    assert forall|k: int| 0 <= k < unsorted.len() implies sorted.contains(
        #[trigger] unsorted[k],
    ) by {
        assert(unsorted.contains(unsorted[k]));
        assert(unsorted.to_multiset().count(unsorted[k]) > 0);
    }
    assert forall|k: int| 0 <= k < sorted.len() implies unsorted.contains(
        #[trigger] sorted[k],
    ) by {
        assert(sorted.contains(sorted[k]));
        assert(sorted.to_multiset().count(sorted[k]) > 0);
    }
    assert forall|k: int| 0 <= k < sorted.len() implies (#[trigger] sorted[k]).file@.path
        == sorted[k].note@.path by {
        assert(unsorted.contains(sorted[k]));
        let m = choose|m: int| 0 <= m < unsorted.len() && unsorted[m] == sorted[k];
        assert(unsorted[m].file@.path == unsorted[m].note@.path);
    }
    let p = places(sorted);
    assert(places(notes) =~= p);
    assert(places(files) =~= p);
}

/// `entry` holds the file and the note of one of `fixtures`.
spec fn came_from(entry: EntryView, fixtures: Seq<Fixture>) -> bool {
    exists|k: int|
        0 <= k < fixtures.len() && entry.file == (#[trigger] fixtures[k]).file@ && entry.note
            == Some(fixtures[k].note@)
}

proof fn lemma_fixture_index(
    unsorted: Seq<Fixture>,
    sorted: Seq<Fixture>,
    files: Seq<FileBase>,
    notes: Seq<Note>,
    index: Seq<EntryView>,
)
    requires
        sorted.len() == unsorted.len(),
        forall|k: int|
            0 <= k < sorted.len() ==> (#[trigger] sorted[k]).file@.path == sorted[k].note@.path,
        forall|k: int| 0 <= k < unsorted.len() ==> sorted.contains(#[trigger] unsorted[k]),
        forall|k: int| 0 <= k < sorted.len() ==> unsorted.contains(#[trigger] sorted[k]),
        files.len() == sorted.len(),
        notes.len() == sorted.len(),
        forall|k: int| 0 <= k < files.len() ==> (#[trigger] files[k]) == sorted[k].file,
        forall|k: int| 0 <= k < notes.len() ==> (#[trigger] notes[k]) == sorted[k].note,
        ascending(places(files)),
        assembled(
            file_views(files),
            note_views(notes),
            link_graph(note_views(notes), places(files)),
            index,
        ),
    ensures
        index.len() == unsorted.len(),
        forall|i: int, j: int|
            0 <= i < j < index.len() ==> !path_lt(
                (#[trigger] index[j]).file.path,
                (#[trigger] index[i]).file.path,
            ),
        forall|k: int|
            0 <= k < unsorted.len() ==> exists|i: int|
                0 <= i < index.len() && (#[trigger] index[i]).file == (
                #[trigger] unsorted[k]).file@ && index[i].note == Some(unsorted[k].note@),
        forall|i: int| 0 <= i < index.len() ==> #[trigger] came_from(index[i], unsorted),
        row_notes(index) == note_views(notes),
        row_paths(index) == places(files),
{
    let f = file_views(files);
    let n = note_views(notes);
    lemma_equal_paths_match(f, n);
    assert forall|i: int, j: int| 0 <= i < j < index.len() implies !path_lt(
        (#[trigger] index[j]).file.path,
        (#[trigger] index[i]).file.path,
    ) by {
        assert(places(files)[i] == index[i].file.path && places(files)[j] == index[j].file.path);
    }
    assert forall|k: int| 0 <= k < unsorted.len() implies exists|i: int|
        0 <= i < index.len() && (#[trigger] index[i]).file == (#[trigger] unsorted[k]).file@
            && index[i].note == Some(unsorted[k].note@) by {
        assert(sorted.contains(unsorted[k]));
        let i = choose|i: int| 0 <= i < sorted.len() && sorted[i] == unsorted[k];
        assert(index[i].file == f[i] && f[i] == files[i]@);
        assert(index[i].note == Some(n[i]));
    }
    assert forall|i: int| 0 <= i < index.len() implies #[trigger] came_from(
        index[i],
        unsorted,
    ) by {
        assert(unsorted.contains(sorted[i]));
        let k = choose|k: int| 0 <= k < unsorted.len() && unsorted[k] == sorted[i];
        assert(index[i].file == f[i] && f[i] == files[i]@);
        assert(index[i].note == Some(n[i]));
        assert(index[i].file == unsorted[k].file@);
    }
    assert(row_notes(index) =~= n) by {
        assert forall|i: int| 0 <= i < index.len() implies row_notes(index)[i] == n[i] by {
            assert(index[i].note == matched_notes(f, n)[i]);
        }
    }
    assert(row_paths(index) =~= places(files));
}

/// Files and notes with the same paths, one by one, are matched one by one.
proof fn lemma_equal_paths_match(files: Seq<FileView>, notes: Seq<NoteView>)
    requires
        files.len() == notes.len(),
        forall|i: int| 0 <= i < files.len() ==> (#[trigger] files[i]).path == notes[i].path,
    ensures
        matched_notes(files, notes).len() == files.len(),
        forall|i: int|
            0 <= i < files.len() ==> (#[trigger] matched_notes(files, notes)[i]) == Some(notes[i]),
    decreases files.len(),
{
    if files.len() > 0 {
        assert(files[0].path == notes[0].path);
        lemma_path_lt_irreflexive(files[0].path);
        let fs = files.drop_first();
        let ns = notes.drop_first();
        assert forall|i: int| 0 <= i < fs.len() implies (#[trigger] fs[i]).path == ns[i].path by {
            assert(fs[i] == files[i + 1] && ns[i] == notes[i + 1]);
        }
        lemma_equal_paths_match(fs, ns);
        let all = matched_notes(files, notes);
        assert forall|i: int| 0 <= i < files.len() implies (#[trigger] all[i]) == Some(
            notes[i],
        ) by {
            if i > 0 {
                assert(matched_notes(fs, ns)[i - 1] == Some(ns[i - 1]));
            }
        }
    }
}

/// The paths of notes.
pub open spec fn note_paths(notes: Seq<NoteView>) -> Seq<Seq<Seq<char>>> {
    Seq::new(notes.len(), |i: int| notes[i].path)
}

proof fn lemma_notes_from(notes: Seq<NoteView>, path: Seq<Seq<char>>, later: Seq<Seq<char>>)
    requires
        strictly_ascending(note_paths(notes)),
        path == later || path_lt(path, later),
    ensures
        strictly_ascending(note_paths(notes_from(notes, path))),
        forall|n: NoteView|
            n.path == later ==> (#[trigger] notes.contains(n) <==> notes_from(
                notes,
                path,
            ).contains(n)),
        forall|n: NoteView| #[trigger]
            notes_from(notes, path).contains(n) ==> !path_lt(n.path, path),
    decreases notes.len(),
{
    let p = note_paths(notes);
    if notes.len() > 0 && path_lt(notes[0].path, path) {
        let rest = notes.drop_first();
        let q = note_paths(rest);
        assert forall|i: int, j: int| 0 <= i < j < q.len() implies path_lt(
            #[trigger] q[i],
            #[trigger] q[j],
        ) by {
            assert(q[i] == p[i + 1] && q[j] == p[j + 1]);
        }
        lemma_notes_from(rest, path, later);
        assert forall|n: NoteView| n.path == later implies (#[trigger] notes.contains(n)
            <==> notes_from(notes, path).contains(n)) by {
            if notes.contains(n) {
                let i = choose|i: int| 0 <= i < notes.len() && notes[i] == n;
                if i == 0 {
                    if path_lt(path, later) {
                        lemma_path_lt_asymmetric(path, later);
                    } else {
                        lemma_path_lt_irreflexive(path);
                    }
                }
                assert(rest[i - 1] == n);
                assert(rest.contains(n));
            }
            if rest.contains(n) {
                let i = choose|i: int| 0 <= i < rest.len() && rest[i] == n;
                assert(notes[i + 1] == n);
            }
        }
    } else {
        assert forall|n: NoteView| #[trigger] notes.contains(n) implies !path_lt(
            n.path,
            path,
        ) by {
            let i = choose|i: int| 0 <= i < notes.len() && notes[i] == n;
            if i > 0 && path_lt(n.path, path) {
                assert(p[0] == notes[0].path && p[i] == n.path);
                lemma_path_lt_transitive(p[0], p[i], path);
            }
        }
    }
}

/// Where no path repeats, each file gets the note of its path, and no note
/// where there is none.
pub proof fn law_files_get_their_notes(files: Seq<FileView>, notes: Seq<NoteView>, i: int)
    requires
        strictly_ascending(super::delta::view_paths(files)),
        strictly_ascending(note_paths(notes)),
        0 <= i < files.len(),
    ensures
        matched_notes(files, notes).len() == files.len(),
        forall|n: NoteView|
            n.path == files[i].path ==> (matched_notes(files, notes)[i] == Some(n)
                <==> #[trigger] notes.contains(n)),
        matched_notes(files, notes)[i] matches Some(n) ==> n.path == files[i].path,
    decreases files.len(),
{
    let paths = super::delta::view_paths(files);
    let all = matched_notes(files, notes);
    let first = files[0].path;
    let target = files[i].path;
    let rest = notes_from(notes, first);
    let others = files.drop_first();
    let q = super::delta::view_paths(others);
    assert forall|k: int, m: int| 0 <= k < m < q.len() implies path_lt(
        #[trigger] q[k],
        #[trigger] q[m],
    ) by {
        assert(q[k] == paths[k + 1] && q[m] == paths[m + 1]);
    }
    assert(paths[0] == first && paths[i] == target);
    lemma_notes_from(notes, first, target);
    let hit = rest.len() > 0 && rest[0].path == first;
    let left = if hit {
        rest.drop_first()
    } else {
        rest
    };
    let r = note_paths(rest);
    if hit {
        let s = note_paths(left);
        assert forall|k: int, m: int| 0 <= k < m < s.len() implies path_lt(
            #[trigger] s[k],
            #[trigger] s[m],
        ) by {
            assert(s[k] == r[k + 1] && s[m] == r[m + 1]);
        }
    }
    if i > 0 {
        law_files_get_their_notes(others, left, i - 1);
        assert(others[i - 1] == files[i]);
        assert(all[i] == matched_notes(others, left)[i - 1]);
        assert forall|n: NoteView| n.path == target implies (all[i] == Some(n)
            <==> #[trigger] notes.contains(n)) by {
            assert(notes.contains(n) <==> rest.contains(n));
            if hit {
                lemma_path_lt_irreflexive(first);
                if rest.contains(n) {
                    let k = choose|k: int| 0 <= k < rest.len() && rest[k] == n;
                    assert(left[k - 1] == n);
                }
                if left.contains(n) {
                    let k = choose|k: int| 0 <= k < left.len() && left[k] == n;
                    assert(rest[k + 1] == n);
                }
            }
            assert(left.contains(n) <==> rest.contains(n));
        }
    } else {
        lemma_matched_len(others, left);
        assert forall|n: NoteView| n.path == target implies (all[0] == Some(n)
            <==> #[trigger] notes.contains(n)) by {
            assert(notes.contains(n) <==> rest.contains(n));
            if hit {
                assert(rest.contains(rest[0]));
                if rest.contains(n) {
                    let k = choose|k: int| 0 <= k < rest.len() && rest[k] == n;
                    if k > 0 {
                        assert(path_lt(r[0], r[k]));
                        lemma_path_lt_irreflexive(first);
                    }
                }
            } else if rest.contains(n) {
                let k = choose|k: int| 0 <= k < rest.len() && rest[k] == n;
                if k > 0 {
                    assert(path_lt(r[0], r[k]));
                    assert(rest.contains(rest[0]));
                }
            }
        }
    }
}

/// Every file is matched, be it with no note.
pub proof fn lemma_matched_len(files: Seq<FileView>, notes: Seq<NoteView>)
    ensures
        matched_notes(files, notes).len() == files.len(),
    decreases files.len(),
{
    if files.len() > 0 {
        let rest = notes_from(notes, files[0].path);
        if rest.len() > 0 && rest[0].path == files[0].path {
            lemma_matched_len(files.drop_first(), rest.drop_first());
        } else {
            lemma_matched_len(files.drop_first(), rest);
        }
    }
}

} // verus!
