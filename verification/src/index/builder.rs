//! Building an index, anew or from what was persisted.

use vstd::prelude::*;

use super::delta::{
    deleted_files, file_views, has_path, law_link_delta_leads_to_current, upserted_files,
    view_paths, FileDelta, FileDeltaView, InlinkDelta,
};
use super::entry::{
    indexed, law_files_get_their_notes, lemma_matched_len, match_notes, matched_notes, note_paths,
    note_view, only_row, option_views, reversed, EntryView, WorkspaceIndex,
};
use super::inlinks::{
    link_graph, link_leads, links_to, lists_sources, note_edge, note_ref_views, note_views,
    InlinkMap,
};
use super::sort::{
    law_members_determine_order, law_strict_paths_are_distinct, places, strictly_ascending,
    SortedByPath,
};
use super::spelling::{graph_spelling, note_texts, Spelling};
use crate::file::{FileBase, FileFormat, FileView};
use crate::note::document::{Note, NoteView};
use crate::note::parser::outlink_views;
use crate::note::structure::Outlink;
use crate::path::{
    lemma_path_lt_asymmetric, lemma_path_lt_irreflexive, path_lt, FilePath,
};
use crate::text::same_text;

verus! {

/// Whether the persisted note of a file still holds.
#[derive(Copy, Clone, Debug, PartialEq, Eq, Structural)]
pub enum NoteCacheState {
    /// The file is new or changed: its note has to be parsed.
    Upserted,
    /// The file is unchanged: its persisted note can be used again.
    Fresh,
}

/// The state of each file, where `upserted` are the changed ones in the same
/// order.
pub open spec fn states_of(files: Seq<FileView>, upserted: Seq<FileView>) -> Seq<NoteCacheState>
    decreases files.len(),
{
    if files.len() == 0 {
        Seq::empty()
    } else if upserted.len() > 0 && upserted[0].path == files[0].path {
        seq![NoteCacheState::Upserted] + states_of(files.drop_first(), upserted.drop_first())
    } else {
        seq![NoteCacheState::Fresh] + states_of(files.drop_first(), upserted)
    }
}

/// The state of each file, where `upserted` are the changed ones in the same
/// order.
pub fn cache_states(files: &Vec<FileBase>, upserted: &Vec<FileBase>) -> (states: Vec<
    NoteCacheState,
>)
    ensures
        states@ == states_of(file_views(files@), file_views(upserted@)),
{
    let ghost a = file_views(files@);
    let ghost b = file_views(upserted@);
    let ghost whole = states_of(a, b);
    let mut states: Vec<NoteCacheState> = Vec::new();
    let m: usize = files.len();
    let n: usize = upserted.len();
    let mut i: usize = 0;
    let mut j: usize = 0;
    proof {
        assert(a.skip(0) =~= a);
        assert(b.skip(0) =~= b);
        assert(states@ + whole =~= whole);
    }
    while i < m
        invariant
            i <= m,
            j <= n,
            m == files@.len(),
            n == upserted@.len(),
            a == file_views(files@),
            b == file_views(upserted@),
            states@ + states_of(a.skip(i as int), b.skip(j as int)) == whole,
        decreases m - i,
    {
        let ghost so_far = states@;
        let ghost x = a.skip(i as int);
        let ghost y = b.skip(j as int);
        proof {
            assert(x[0] == files@[i as int]@);
            assert(x.drop_first() =~= a.skip(i + 1));
            if j < n {
                assert(y[0] == upserted@[j as int]@);
                assert(y.drop_first() =~= b.skip(j + 1));
            }
        }
        let changed = j < n && upserted[j].path().same(files[i].path());
        if changed {
            states.push(NoteCacheState::Upserted);
            j = j + 1;
        } else {
            states.push(NoteCacheState::Fresh);
        }
        proof {
            let rest = states_of(a.skip(i + 1), b.skip(j as int));
            assert(so_far + (seq![states@.last()] + rest) =~= states@ + rest);
        }
        i = i + 1;
    }
    assert(states_of(a.skip(i as int), b.skip(j as int)) =~= Seq::empty());
    assert(states@ =~= whole);
    states
}

proof fn lemma_state(files: Seq<FileView>, upserted: Seq<FileView>, i: int)
    requires
        strictly_ascending(view_paths(files)),
        strictly_ascending(view_paths(upserted)),
        forall|k: int|
            0 <= k < upserted.len() ==> has_path(files, (#[trigger] upserted[k]).path),
        0 <= i < files.len(),
    ensures
        states_of(files, upserted).len() == files.len(),
        states_of(files, upserted)[i] == NoteCacheState::Upserted <==> has_path(
            upserted,
            files[i].path,
        ),
    decreases files.len(),
{
    let p = view_paths(files);
    let q = view_paths(upserted);
    let rest = files.drop_first();
    let r = view_paths(rest);
    assert(strictly_ascending(r)) by {
        assert forall|k: int, m: int| 0 <= k < m < r.len() implies path_lt(
            #[trigger] r[k],
            #[trigger] r[m],
        ) by {
            assert(r[k] == p[k + 1] && r[m] == p[m + 1]);
        }
    }
    let hit = upserted.len() > 0 && upserted[0].path == files[0].path;
    let left = if hit {
        upserted.drop_first()
    } else {
        upserted
    };
    let l = view_paths(left);
    if hit {
        assert(strictly_ascending(l)) by {
            assert forall|k: int, m: int| 0 <= k < m < l.len() implies path_lt(
                #[trigger] l[k],
                #[trigger] l[m],
            ) by {
                assert(l[k] == q[k + 1] && l[m] == q[m + 1]);
            }
        }
    }
    assert forall|k: int| 0 <= k < left.len() implies has_path(
        rest,
        (#[trigger] left[k]).path,
    ) by {
        let u = if hit {
            k + 1
        } else {
            k
        };
        assert(left[k] == upserted[u]);
        assert(has_path(files, upserted[u].path));
        let m = choose|m: int|
            0 <= m < files.len() && (#[trigger] files[m]).path == upserted[u].path;
        if m == 0 {
            if hit {
                assert(path_lt(q[0], q[u]));
                lemma_path_lt_irreflexive(q[0]);
            } else {
                assert(u > 0);
                assert(has_path(files, upserted[0].path));
                let t = choose|t: int|
                    0 <= t < files.len() && (#[trigger] files[t]).path == upserted[0].path;
                assert(path_lt(q[0], q[u]));
                assert(p[0] == q[u]);
                assert(t > 0);
                assert(path_lt(p[0], p[t]));
                lemma_path_lt_asymmetric(q[0], q[u]);
            }
        }
        assert(rest[m - 1].path == left[k].path);
    }
    let all = states_of(files, upserted);
    if rest.len() > 0 {
        lemma_state(rest, left, if i > 0 { i - 1 } else { 0 });
    } else {
        assert(states_of(rest, left) =~= Seq::empty());
    }
    if i > 0 {
        assert(all[i] == states_of(rest, left)[i - 1]);
        assert(rest[i - 1] == files[i]);
        if hit {
            assert(has_path(left, files[i].path) <==> has_path(upserted, files[i].path)) by {
                if has_path(upserted, files[i].path) {
                    let k = choose|k: int|
                        0 <= k < upserted.len() && (#[trigger] upserted[k]).path == files[i].path;
                    if k == 0 {
                        assert(path_lt(p[0], p[i]));
                        lemma_path_lt_irreflexive(p[0]);
                    }
                    assert(left[k - 1].path == files[i].path);
                }
                if has_path(left, files[i].path) {
                    let k = choose|k: int|
                        0 <= k < left.len() && (#[trigger] left[k]).path == files[i].path;
                    assert(upserted[k + 1].path == files[i].path);
                }
            }
        }
    } else if hit {
        assert(upserted[0].path == files[0].path);
        assert(has_path(upserted, files[0].path));
    } else if has_path(upserted, files[0].path) {
        let k = choose|k: int|
            0 <= k < upserted.len() && (#[trigger] upserted[k]).path == files[0].path;
        assert(left[k] == upserted[k]);
        assert(has_path(rest, files[0].path));
        let m = choose|m: int| 0 <= m < rest.len() && (#[trigger] rest[m]).path == files[0].path;
        assert(path_lt(p[0], p[m + 1]));
        lemma_path_lt_irreflexive(p[0]);
    }
}

/// A file counts as changed exactly where it is one of the changed ones, however
/// these are spread among the others.
pub proof fn law_states_follow_changes(files: Seq<FileView>, upserted: Seq<FileView>, i: int)
    requires
        strictly_ascending(view_paths(files)),
        strictly_ascending(view_paths(upserted)),
        forall|k: int|
            0 <= k < upserted.len() ==> has_path(files, (#[trigger] upserted[k]).path),
        0 <= i < files.len(),
    ensures
        states_of(files, upserted)[i] == NoteCacheState::Upserted <==> has_path(
            upserted,
            files[i].path,
        ),
{
    lemma_state(files, upserted, i);
}

/// What the links of a note point to.
pub open spec fn outlink_targets(note: NoteView) -> Set<Seq<char>> {
    Set::new(
        |target: Seq<char>|
            exists|i: int|
                0 <= i < note.outlinks.len() && (#[trigger] note.outlinks[i]).target == target,
    )
}

fn has_outlink_to(outlinks: &Vec<Outlink>, target: &str) -> (found: bool)
    ensures
        found == exists|i: int|
            0 <= i < outlinks@.len() && (#[trigger] outlink_views(outlinks@)[i]).target
                == target@,
{
    let ghost views = outlink_views(outlinks@);
    let mut i: usize = 0;
    while i < outlinks.len()
        invariant
            i <= outlinks@.len(),
            views == outlink_views(outlinks@),
            forall|k: int| 0 <= k < i ==> (#[trigger] views[k]).target != target@,
        decreases outlinks@.len() - i,
    {
        assert(views[i as int] == outlinks@[i as int]@);
        if same_text(outlinks[i].target(), target) {
            return true;
        }
        i = i + 1;
    }
    false
}

fn targets_within(note: &Note, other: &Note) -> (within: bool)
    ensures
        within == outlink_targets(note@).subset_of(outlink_targets(other@)),
{
    let outlinks = note.outlinks();
    let others = other.outlinks();
    let ghost a = outlink_targets(note@);
    let ghost b = outlink_targets(other@);
    let mut i: usize = 0;
    while i < outlinks.len()
        invariant
            i <= outlinks@.len(),
            outlink_views(outlinks@) == note@.outlinks,
            outlink_views(others@) == other@.outlinks,
            a == outlink_targets(note@),
            b == outlink_targets(other@),
            forall|k: int| 0 <= k < i ==> b.contains((#[trigger] note@.outlinks[k]).target),
        decreases outlinks@.len() - i,
    {
        assert(note@.outlinks[i as int] == outlinks@[i as int]@);
        if !has_outlink_to(others, outlinks[i].target()) {
            assert(a.contains(note@.outlinks[i as int].target));
            assert(!b.contains(note@.outlinks[i as int].target));
            return false;
        }
        i = i + 1;
    }
    true
}

/// Whether two notes link to different targets. Order, repetition and text of
/// the links do not count.
pub fn is_outlinks_changed(note: &Note, previous: &Note) -> (changed: bool)
    ensures
        changed == (outlink_targets(note@) != outlink_targets(previous@)),
{
    let same = targets_within(note, previous) && targets_within(previous, note);
    proof {
        let a = outlink_targets(note@);
        let b = outlink_targets(previous@);
        if same {
            assert(a =~= b);
        }
    }
    !same
}

/// Why an index cannot be built from what was persisted.
#[derive(Debug)]
pub enum IndexBuilderError {
    /// An unchanged file has no persisted note, or a changed one no parsed note.
    MissingNote {
        /// The file.
        path: FilePath,
    },
}

/// The persisted state that a refresh starts from.
pub struct RefreshCache {
    files: SortedByPath<FileBase>,
    inlinks: InlinkMap,
    notes: SortedByPath<Note>,
}

/// Contents of a [`RefreshCache`].
pub struct CacheView {
    /// The files.
    pub files: Seq<FileView>,
    /// The links.
    pub links: Set<(Seq<Seq<char>>, Seq<Seq<char>>)>,
    /// The notes.
    pub notes: Seq<NoteView>,
}

impl View for RefreshCache {
    type V = CacheView;

    closed spec fn view(&self) -> CacheView {
        CacheView {
            files: file_views(self.files@),
            links: self.inlinks@,
            notes: note_views(self.notes@),
        }
    }
}

/// A note was among the files.
pub open spec fn has_note_file(files: Seq<FileView>) -> bool {
    exists|i: int| 0 <= i < files.len() && (#[trigger] files[i]).format == FileFormat::Note
}

fn any_note(files: &Vec<FileBase>) -> (found: bool)
    ensures
        found == has_note_file(file_views(files@)),
{
    let ghost views = file_views(files@);
    let mut i: usize = 0;
    while i < files.len()
        invariant
            i <= files@.len(),
            views == file_views(files@),
            forall|k: int| 0 <= k < i ==> (#[trigger] views[k]).format != FileFormat::Note,
        decreases files@.len() - i,
    {
        assert(views[i as int] == files@[i as int]@);
        if files[i].format() == FileFormat::Note {
            return true;
        }
        i = i + 1;
    }
    false
}

impl RefreshCache {
    /// How the persisted links are written.
    pub closed spec fn spelling(self) -> Spelling {
        self.inlinks.spelling()
    }

    /// The persisted files, links and notes.
    pub fn new(
        files: SortedByPath<FileBase>,
        inlinks: InlinkMap,
        notes: SortedByPath<Note>,
    ) -> (cache: Self)
        ensures
            cache@ == (CacheView {
                files: file_views(files@),
                links: inlinks@,
                notes: note_views(notes@),
            }),
            cache.spelling() == inlinks.spelling(),
    {
        RefreshCache { files, inlinks, notes }
    }

    /// What changed since, and whether a note was removed.
    pub fn diff_files(&self, current: &SortedByPath<FileBase>) -> (diff: (FileDelta, bool))
        ensures
            diff.0@ == (FileDeltaView {
                upserted: upserted_files(file_views(current@), self@.files),
                deleted: deleted_files(file_views(current@), self@.files),
            }),
            diff.1 == has_note_file(deleted_files(file_views(current@), self@.files)),
    {
        let delta = FileDelta::compute(current, &self.files);
        let removed = any_note(delta.deleted());
        (delta, removed)
    }
}

/// What becomes of the note of one file.
pub enum NoteChoice {
    /// The file has none.
    Nothing,
    /// The note, and whether its links changed.
    Note(NoteView, bool),
    /// The note is missing.
    Missing,
}

/// The note of a note file: of one that changed the note parsed anew, of another
/// the persisted one.
pub open spec fn note_choice(
    state: NoteCacheState,
    parsed: Option<NoteView>,
    cached: Option<NoteView>,
) -> NoteChoice {
    match (state, parsed, cached) {
        (NoteCacheState::Upserted, Some(note), Some(previous)) => NoteChoice::Note(
            note,
            outlink_targets(note) != outlink_targets(previous),
        ),
        (NoteCacheState::Upserted, Some(note), None) => NoteChoice::Note(note, true),
        (NoteCacheState::Upserted, None, _) => NoteChoice::Missing,
        (NoteCacheState::Fresh, _, Some(previous)) => NoteChoice::Note(previous, false),
        (NoteCacheState::Fresh, _, None) => NoteChoice::Missing,
    }
}

/// The note of a file, which has none unless it is a note file.
pub open spec fn file_choice(
    file: FileView,
    state: NoteCacheState,
    parsed: Option<NoteView>,
    cached: Option<NoteView>,
) -> NoteChoice {
    if file.format == FileFormat::Note {
        note_choice(state, parsed, cached)
    } else {
        NoteChoice::Nothing
    }
}

/// What becomes of the note of each file.
pub open spec fn note_choices(
    files: Seq<FileView>,
    states: Seq<NoteCacheState>,
    parsed: Seq<Option<NoteView>>,
    cached: Seq<Option<NoteView>>,
) -> Seq<NoteChoice> {
    Seq::new(files.len(), |i: int| file_choice(files[i], states[i], parsed[i], cached[i]))
}

/// The notes that were chosen.
pub open spec fn chosen_notes(choices: Seq<NoteChoice>) -> Seq<Option<NoteView>> {
    Seq::new(
        choices.len(),
        |i: int|
            match choices[i] {
                NoteChoice::Note(note, _) => Some(note),
                _ => None,
            },
    )
}

/// The links of some note changed.
pub open spec fn any_changed(choices: Seq<NoteChoice>) -> bool {
    exists|i: int|
        0 <= i < choices.len() && (#[trigger] choices[i] matches NoteChoice::Note(_, changed)
            && changed)
}

/// Choice `i` is the first whose note is missing.
pub open spec fn first_missing(choices: Seq<NoteChoice>, i: int) -> bool {
    &&& 0 <= i < choices.len()
    &&& choices[i] is Missing
    &&& forall|k: int| 0 <= k < i ==> !((#[trigger] choices[k]) is Missing)
}

/// The notes that are there.
pub open spec fn present(notes: Seq<Option<NoteView>>) -> Seq<NoteView>
    decreases notes.len(),
{
    if notes.len() == 0 {
        Seq::empty()
    } else {
        match notes.last() {
            Some(note) => present(notes.drop_last()).push(note),
            None => present(notes.drop_last()),
        }
    }
}

/// The note of a note file, and whether its links changed: of a file that changed
/// the note parsed anew, of another the persisted one.
pub fn reconcile_note(
    file: &FileBase,
    state: NoteCacheState,
    parsed: Option<Note>,
    cached: Option<Note>,
) -> (result: Result<(Note, bool), IndexBuilderError>)
    ensures
        match (result, note_choice(state, note_view(parsed), note_view(cached))) {
            (Ok(found), NoteChoice::Note(note, changed)) => found.0@ == note && found.1 == changed,
            (Err(IndexBuilderError::MissingNote { path }), NoteChoice::Missing) => path@
                == file@.path && path.spec_text() == file@.path_text,
            _ => false,
        },
{
    match state {
        NoteCacheState::Upserted => match (parsed, cached) {
            (Some(note), Some(previous)) => {
                let changed = is_outlinks_changed(&note, &previous);
                Ok((note, changed))
            },
            (Some(note), None) => Ok((note, true)),
            (None, _) => Err(IndexBuilderError::MissingNote { path: file.path().copy() }),
        },
        NoteCacheState::Fresh => match cached {
            Some(previous) => Ok((previous, false)),
            None => Err(IndexBuilderError::MissingNote { path: file.path().copy() }),
        },
    }
}

fn present_notes(notes: &Vec<Option<Note>>) -> (found: Vec<&Note>)
    ensures
        note_ref_views(found@) == present(option_views(notes@)),
{
    let ghost views = option_views(notes@);
    let mut found: Vec<&Note> = Vec::new();
    let mut i: usize = 0;
    proof {
        assert(views.take(0) =~= Seq::empty());
        assert(note_ref_views(found@) =~= Seq::empty());
    }
    while i < notes.len()
        invariant
            i <= notes@.len(),
            views == option_views(notes@),
            note_ref_views(found@) == present(views.take(i as int)),
        decreases notes@.len() - i,
    {
        let ghost before = note_ref_views(found@);
        proof {
            let next = views.take(i + 1);
            assert(next.drop_last() =~= views.take(i as int));
            assert(next.last() == note_view(notes@[i as int]));
        }
        if let Some(note) = &notes[i] {
            found.push(note);
            assert(note_ref_views(found@) =~= before.push(note@));
        }
        i = i + 1;
    }
    assert(views.take(i as int) =~= views);
    found
}

/// The note of each file, and whether the links of some changed.
fn choose_notes(
    files: &Vec<FileBase>,
    states: &Vec<NoteCacheState>,
    parsed: Vec<Option<Note>>,
    cached: Vec<Option<Note>>,
) -> (result: Result<(Vec<Option<Note>>, bool), IndexBuilderError>)
    requires
        states@.len() == files@.len(),
        parsed@.len() == files@.len(),
        cached@.len() == files@.len(),
    ensures
        ({
            let all = file_views(files@);
            let choices = note_choices(
                all,
                states@,
                option_views(parsed@),
                option_views(cached@),
            );
            match result {
                Ok(chosen) => {
                    &&& forall|i: int|
                        0 <= i < choices.len() ==> !((#[trigger] choices[i]) is Missing)
                    &&& option_views(chosen.0@) == chosen_notes(choices)
                    &&& chosen.1 == any_changed(choices)
                },
                Err(IndexBuilderError::MissingNote { path }) => exists|i: int| #[trigger]
                    first_missing(choices, i) && path@ == all[i].path && path.spec_text()
                    == all[i].path_text,
            }
        }),
{
    let ghost all = file_views(files@);
    let ghost fresh = option_views(parsed@);
    let ghost found = option_views(cached@);
    let ghost choices = note_choices(all, states@, fresh, found);
    let ghost parsed_all = parsed@;
    let ghost cached_all = cached@;
    let mut parsed_queue = reversed(parsed);
    let mut cached_queue = reversed(cached);
    let mut changed = false;
    let mut notes: Vec<Option<Note>> = Vec::new();
    let mut i: usize = 0;
    while i < files.len()
        invariant
            i <= files@.len(),
            all == file_views(files@),
            fresh == option_views(parsed_all),
            found == option_views(cached_all),
            parsed_all == parsed@,
            cached_all == cached@,
            parsed_all.len() == files@.len(),
            cached_all.len() == files@.len(),
            states@.len() == files@.len(),
            choices == note_choices(all, states@, fresh, found),
            parsed_queue@.len() == files@.len() - i,
            forall|k: int|
                0 <= k < parsed_queue@.len() ==> (#[trigger] parsed_queue@[k])
                    == parsed_all[parsed_all.len() - 1 - k],
            cached_queue@.len() == files@.len() - i,
            forall|k: int|
                0 <= k < cached_queue@.len() ==> (#[trigger] cached_queue@[k])
                    == cached_all[cached_all.len() - 1 - k],
            notes@.len() == i,
            forall|k: int| 0 <= k < i ==> !((#[trigger] choices[k]) is Missing),
            forall|k: int|
                0 <= k < i ==> note_view(#[trigger] notes@[k]) == chosen_notes(choices)[k],
            changed == exists|k: int|
                0 <= k < i && (#[trigger] choices[k] matches NoteChoice::Note(_, differs)
                    && differs),
        decreases files@.len() - i,
    {
        let new_note = match parsed_queue.pop() {
            Some(note) => note,
            None => None,
        };
        let old_note = match cached_queue.pop() {
            Some(note) => note,
            None => None,
        };
        assert(new_note == parsed_all[i as int]);
        assert(old_note == cached_all[i as int]);
        assert(all[i as int] == files@[i as int]@);
        let ghost choice = choices[i as int];
        if files[i].format() == FileFormat::Note {
            match reconcile_note(&files[i], states[i], new_note, old_note) {
                Err(error) => {
                    assert(first_missing(choices, i as int));
                    return Err(error);
                },
                Ok((note, differs)) => {
                    changed = changed || differs;
                    notes.push(Some(note));
                },
            }
        } else {
            notes.push(None);
        }
        assert(choices[i as int] == choice);
        i = i + 1;
    }
    assert(option_views(notes@) =~= chosen_notes(choices));
    Ok((notes, changed))
}

/// An index of `files`, where the note of file `i` is `notes[i]`. All links are
/// resolved.
pub fn build_fresh(files: SortedByPath<FileBase>, notes: Vec<Option<Note>>) -> (index:
    WorkspaceIndex)
    requires
        notes@.len() == files@.len(),
    ensures
        indexed(
            file_views(files@),
            option_views(notes@),
            link_graph(present(option_views(notes@)), places(files@)),
            index@,
        ),
        index.inlink_texts().subset_of(note_texts(present(option_views(notes@))).to_set()),
{
    let inlinks = InlinkMap::of_notes(&present_notes(&notes), &files);
    WorkspaceIndex::from_parts(files, notes, inlinks)
}

/// An index with what changed to get there.
pub struct RefreshedIndex {
    /// The index.
    pub index: WorkspaceIndex,
    /// What changed in the files.
    pub delta: FileDelta,
    /// What changed in the links, where they were resolved anew.
    pub links: Option<InlinkDelta>,
}

fn same_paths(a: &Vec<FileBase>, b: &Vec<FileBase>) -> (same: bool)
    ensures
        same == (view_paths(file_views(a@)) == view_paths(file_views(b@))),
{
    let ghost p = view_paths(file_views(a@));
    let ghost q = view_paths(file_views(b@));
    if a.len() != b.len() {
        assert(p.len() != q.len());
        return false;
    }
    let mut i: usize = 0;
    while i < a.len()
        invariant
            i <= a@.len(),
            a@.len() == b@.len(),
            p == view_paths(file_views(a@)),
            q == view_paths(file_views(b@)),
            forall|k: int| 0 <= k < i ==> p[k] == q[k],
        decreases a@.len() - i,
    {
        assert(p[i as int] == a@[i as int]@.path && q[i as int] == b@[i as int]@.path);
        if !a[i].path().same(b[i].path()) {
            return false;
        }
        i = i + 1;
    }
    assert(p =~= q);
    true
}

/// The persisted links do not hold any more: a note was removed, a note links to
/// other targets, or the files are at other paths and links lead elsewhere now.
pub open spec fn links_are_stale(
    files: Seq<FileView>,
    cache: CacheView,
    choices: Seq<NoteChoice>,
) -> bool {
    ||| has_note_file(deleted_files(files, cache.files))
    ||| any_changed(choices)
    ||| view_paths(files) != view_paths(cache.files) && link_graph(
        present(chosen_notes(choices)),
        view_paths(files),
    ) != cache.links
}

/// What becomes of the note of each file in a refresh.
pub open spec fn refresh_choices(
    files: Seq<FileView>,
    cache: CacheView,
    parsed: Seq<Option<NoteView>>,
) -> Seq<NoteChoice> {
    note_choices(
        files,
        states_of(files, upserted_files(files, cache.files)),
        parsed,
        matched_notes(files, cache.notes),
    )
}

/// The persisted state is that of an index: its notes are those of its note
/// files, each once, and its links are what these notes give.
pub open spec fn is_index_state(cache: CacheView) -> bool {
    &&& strictly_ascending(note_paths(cache.notes))
    &&& forall|k: int| #![trigger cache.notes[k]]
        0 <= k < cache.notes.len() ==> is_note_file(cache.files, cache.notes[k].path)
    &&& cache.links == link_graph(cache.notes, view_paths(cache.files))
}

/// A note file stands at `path`.
pub open spec fn is_note_file(files: Seq<FileView>, path: Seq<Seq<char>>) -> bool {
    exists|i: int|
        0 <= i < files.len() && (#[trigger] files[i]).path == path && files[i].format
            == FileFormat::Note
}

/// `files` and `parsed` can follow a persisted state: each path once, of the
/// format that it had, and each parsed note that of its file.
pub open spec fn can_follow(
    files: Seq<FileView>,
    cache: CacheView,
    parsed: Seq<Option<NoteView>>,
) -> bool {
    &&& strictly_ascending(view_paths(files))
    &&& parsed.len() == files.len()
    &&& forall|i: int, j: int|
        0 <= i < files.len() && 0 <= j < cache.files.len() && (#[trigger] files[i]).path == (
        #[trigger] cache.files[j]).path ==> files[i].format == cache.files[j].format
    &&& forall|i: int|
        0 <= i < files.len() ==> ((#[trigger] parsed[i]) matches Some(note) ==> note.path
            == files[i].path)
}

/// An index of `files`, where `parsed[i]` is the note of file `i` if that file
/// changed, and the persisted note stands for the others. Links are resolved
/// anew only where files came or went or a note links to other targets. Links
/// that are kept are those that resolving anew would give.
pub fn build_with_cache(
    files: SortedByPath<FileBase>,
    cache: RefreshCache,
    parsed: Vec<Option<Note>>,
) -> (result: Result<RefreshedIndex, IndexBuilderError>)
    requires
        parsed@.len() == files@.len(),
    ensures
        ({
            let all = file_views(files@);
            let choices = refresh_choices(all, cache@, option_views(parsed@));
            let notes = chosen_notes(choices);
            let stale = links_are_stale(all, cache@, choices);
            let links = link_graph(present(notes), places(files@));
            let texts = graph_spelling(present(notes), all);
            match result {
                Ok(refreshed) => {
                    &&& forall|i: int| 0 <= i < choices.len() ==> !((#[trigger] choices[i]) is Missing)
                    &&& refreshed.delta@ == (FileDeltaView {
                        upserted: upserted_files(all, cache@.files),
                        deleted: deleted_files(all, cache@.files),
                    })
                    &&& stale ==> {
                        &&& indexed(all, notes, links, refreshed.index@)
                        &&& refreshed.index.inlink_texts().subset_of(texts.sources)
                        &&& refreshed.links matches Some(change) && {
                            &&& change@.upserted.no_duplicates()
                            &&& change@.upserted.to_set() == links.difference(cache@.links)
                            &&& change@.deleted.no_duplicates()
                            &&& change@.deleted.to_set() == cache@.links.difference(links)
                            &&& change.upserted_spelling().within(texts)
                            &&& change.deleted_spelling().within(cache.spelling())
                        }
                    }
                    &&& !stale ==> {
                        &&& indexed(all, notes, cache@.links, refreshed.index@)
                        &&& refreshed.index.inlink_texts().subset_of(
                            texts.or(cache.spelling()).sources,
                        )
                        &&& refreshed.links is None
                    }
                    &&& is_index_state(cache@) && can_follow(all, cache@, option_views(parsed@))
                        ==> indexed(all, notes, links, refreshed.index@)
                },
                Err(IndexBuilderError::MissingNote { path }) => exists|i: int| #[trigger]
                    first_missing(choices, i) && path@ == all[i].path && path.spec_text()
                    == all[i].path_text,
            }
        }),
{
    let ghost all = file_views(files@);
    let ghost persisted = cache@;
    let (delta, removed) = cache.diff_files(&files);
    let states = cache_states(files.as_rows(), delta.upserted());
    let cached = match_notes(files.as_rows(), cache.notes.into_vec());
    proof {
        lemma_matched_len(all, persisted.notes);
        lemma_states_len(all, delta@.upserted);
        assert(option_views(cached@).len() == cached@.len());
        assert(places(files@) =~= view_paths(all));
    }
    let ghost fresh = option_views(parsed@);
    let (notes, changed) = match choose_notes(files.as_rows(), &states, parsed, cached) {
        Ok(chosen) => chosen,
        Err(error) => return Err(error),
    };
    let dirty = removed || changed;
    if dirty || !same_paths(files.as_rows(), cache.files.as_rows()) {
        let inlinks = InlinkMap::of_notes(&present_notes(&notes), &files);
        let links = InlinkDelta::compute(&inlinks, &cache.inlinks);
        proof {
            law_link_delta_leads_to_current(inlinks@, persisted.links, links@);
        }
        let links = if dirty || !links.is_empty() {
            Some(links)
        } else {
            None
        };
        let index = WorkspaceIndex::from_parts(files, notes, inlinks);
        Ok(RefreshedIndex { index, delta, links })
    } else {
        proof {
            if is_index_state(persisted) && can_follow(all, persisted, fresh) {
                law_kept_links_are_current(all, persisted, fresh);
            }
        }
        let index = WorkspaceIndex::from_parts(files, notes, cache.inlinks);
        Ok(RefreshedIndex { index, delta, links: None })
    }
}

proof fn lemma_states_len(files: Seq<FileView>, upserted: Seq<FileView>)
    ensures
        states_of(files, upserted).len() == files.len(),
    decreases files.len(),
{
    if files.len() > 0 {
        if upserted.len() > 0 && upserted[0].path == files[0].path {
            lemma_states_len(files.drop_first(), upserted.drop_first());
        } else {
            lemma_states_len(files.drop_first(), upserted);
        }
    }
}

proof fn lemma_same_links(
    note: NoteView,
    other: NoteView,
    paths: Seq<Seq<Seq<char>>>,
    target: Seq<Seq<char>>,
)
    requires
        note.path == other.path,
        outlink_targets(note) == outlink_targets(other),
        links_to(note, paths, target),
    ensures
        links_to(other, paths, target),
{
    let j = choose|j: int| link_leads(note, paths, j, target);
    let text = note.outlinks[j].target;
    assert(outlink_targets(note).contains(text));
    assert(outlink_targets(other).contains(text));
    let k = choose|k: int|
        0 <= k < other.outlinks.len() && (#[trigger] other.outlinks[k]).target == text;
    assert(link_leads(other, paths, k, target));
}

proof fn lemma_present(notes: Seq<Option<NoteView>>, note: NoteView)
    ensures
        present(notes).contains(note) <==> exists|i: int|
            0 <= i < notes.len() && #[trigger] notes[i] == Some(note),
    decreases notes.len(),
{
    if notes.len() > 0 {
        let rest = notes.drop_last();
        let found = present(rest);
        let last = notes.len() - 1;
        lemma_present(rest, note);
        if present(notes).contains(note) {
            let k = choose|k: int| 0 <= k < present(notes).len() && present(notes)[k] == note;
            if k < found.len() {
                assert(found[k] == note);
                let i = choose|i: int| 0 <= i < rest.len() && #[trigger] rest[i] == Some(note);
                assert(notes[i] == Some(note));
            } else {
                assert(notes[last] == Some(note));
            }
        }
        if exists|i: int| 0 <= i < notes.len() && #[trigger] notes[i] == Some(note) {
            let i = choose|i: int| 0 <= i < notes.len() && #[trigger] notes[i] == Some(note);
            if i < last {
                assert(rest[i] == Some(note));
                let k = choose|k: int| 0 <= k < found.len() && found[k] == note;
                assert(present(notes)[k] == note);
            } else {
                assert(present(notes)[found.len() as int] == note);
            }
        }
    }
}

/// Links that do not count as stale are those that resolving anew would give:
/// the persisted links are the links of the notes at hand among the files at
/// hand.
pub proof fn law_kept_links_are_current(
    files: Seq<FileView>,
    cache: CacheView,
    parsed: Seq<Option<NoteView>>,
)
    requires
        is_index_state(cache),
        can_follow(files, cache, parsed),
        forall|i: int|
            0 <= i < files.len() ==> !((#[trigger] refresh_choices(files, cache, parsed)[i]) is Missing),
        !links_are_stale(files, cache, refresh_choices(files, cache, parsed)),
    ensures
        link_graph(
            present(chosen_notes(refresh_choices(files, cache, parsed))),
            view_paths(files),
        ) == cache.links,
{
    let persisted = cache.notes;
    let paths = view_paths(files);
    let matched = matched_notes(files, persisted);
    let states = states_of(files, upserted_files(files, cache.files));
    let choices = refresh_choices(files, cache, parsed);
    let chosen = chosen_notes(choices);
    let notes = present(chosen);
    let before = link_graph(persisted, paths);
    let after = link_graph(notes, paths);
    if paths == view_paths(cache.files) {
        assert forall|edge: (Seq<Seq<char>>, Seq<Seq<char>>)| #[trigger]
            after.contains(edge) <==> before.contains(edge) by {
            if after.contains(edge) {
                let k = choose|k: int| note_edge(notes, paths, k, edge);
                let note = notes[k];
                assert(notes.contains(note));
                lemma_present(chosen, note);
                let i = choose|i: int| 0 <= i < chosen.len() && #[trigger] chosen[i] == Some(note);
                law_files_get_their_notes(files, persisted, i);
                assert(choices[i] == file_choice(files[i], states[i], parsed[i], matched[i]));
                let previous = matched[i].unwrap();
                assert(matched[i] == Some(previous));
                assert(persisted.contains(previous));
                assert(parsed[i] is Some ==> parsed[i].unwrap().path == files[i].path);
                lemma_same_links(note, previous, paths, edge.0);
                let m = choose|m: int| 0 <= m < persisted.len() && persisted[m] == previous;
                assert(note_edge(persisted, paths, m, edge));
            }
            if before.contains(edge) {
                let k = choose|k: int| note_edge(persisted, paths, k, edge);
                let previous = persisted[k];
                assert(is_note_file(cache.files, cache.notes[k].path));
                let i = choose|i: int|
                    0 <= i < cache.files.len() && (#[trigger] cache.files[i]).path == previous.path
                        && cache.files[i].format == FileFormat::Note;
                assert(view_paths(cache.files)[i] == cache.files[i].path);
                assert(paths[i] == files[i].path);
                law_files_get_their_notes(files, persisted, i);
                assert(persisted.contains(previous));
                assert(matched[i] == Some(previous));
                assert(choices[i] == file_choice(files[i], states[i], parsed[i], matched[i]));
                assert(!(choices[i] is Missing));
                let note = chosen[i].unwrap();
                assert(chosen[i] == Some(note));
                assert(parsed[i] is Some ==> parsed[i].unwrap().path == files[i].path);
                lemma_same_links(previous, note, paths, edge.0);
                lemma_present(chosen, note);
                let m = choose|m: int| 0 <= m < notes.len() && notes[m] == note;
                assert(note_edge(notes, paths, m, edge));
            }
        }
        assert(after =~= before);
    }
}

/// `fresh` are the notes that parsing all files gives: of a changed file the note
/// that was parsed, of another the persisted one, and of a file that is no note
/// none.
pub open spec fn are_fresh_notes(
    files: Seq<FileView>,
    cache: CacheView,
    parsed: Seq<Option<NoteView>>,
    fresh: Seq<Option<NoteView>>,
) -> bool {
    let states = states_of(files, upserted_files(files, cache.files));
    let matched = matched_notes(files, cache.notes);
    &&& fresh.len() == files.len()
    &&& forall|i: int| #![trigger fresh[i]]
        0 <= i < files.len() ==> if files[i].format != FileFormat::Note {
            fresh[i] is None
        } else if states[i] == NoteCacheState::Upserted {
            fresh[i] is Some && fresh[i] == parsed[i]
        } else {
            fresh[i] is Some && fresh[i] == matched[i]
        }
}

/// An index is determined by its files, their notes and the links.
proof fn lemma_index_determined(
    files: Seq<FileView>,
    notes: Seq<Option<NoteView>>,
    edges: Set<(Seq<Seq<char>>, Seq<Seq<char>>)>,
    a: Seq<EntryView>,
    b: Seq<EntryView>,
)
    requires
        strictly_ascending(view_paths(files)),
        indexed(files, notes, edges, a),
        indexed(files, notes, edges, b),
    ensures
        a == b,
{
    let paths = view_paths(files);
    law_strict_paths_are_distinct(paths);
    assert forall|i: int| 0 <= i < a.len() implies a[i] == b[i] by {
        assert forall|k: int| 0 <= k < files.len() && k != i implies (#[trigger] files[k]).path
            != files[i].path by {
            assert(paths[k] == files[k].path && paths[i] == files[i].path);
        }
        assert(only_row(a, i)) by {
            assert forall|k: int| 0 <= k < a.len() && k != i implies (#[trigger] a[k]).file.path
                != a[i].file.path by {
                assert(a[k].file == files[k] && a[i].file == files[i]);
            }
        }
        assert(only_row(b, i)) by {
            assert forall|k: int| 0 <= k < b.len() && k != i implies (#[trigger] b[k]).file.path
                != b[i].file.path by {
                assert(b[k].file == files[k] && b[i].file == files[i]);
            }
        }
        let x = a[i].inlinks;
        let y = b[i].inlinks;
        assert(lists_sources(x, edges, files[i].path));
        assert(lists_sources(y, edges, files[i].path));
        assert forall|p: Seq<Seq<char>>| #[trigger] x.contains(p) <==> y.contains(p) by {
            assert(x.contains(p) <==> edges.contains((files[i].path, p)));
            assert(y.contains(p) <==> edges.contains((files[i].path, p)));
        }
        law_members_determine_order(x, y);
    }
    assert(a =~= b);
}

/// A refreshed index is the index that building anew gives: the same files, the
/// same notes and the same links between them, whether the persisted links were
/// kept or not. No note is missing.
pub proof fn law_refreshed_index_is_a_fresh_index(
    files: Seq<FileView>,
    cache: CacheView,
    parsed: Seq<Option<NoteView>>,
    fresh: Seq<Option<NoteView>>,
    refreshed: Seq<EntryView>,
    built: Seq<EntryView>,
)
    requires
        is_index_state(cache),
        can_follow(files, cache, parsed),
        are_fresh_notes(files, cache, parsed, fresh),
        ({
            let choices = refresh_choices(files, cache, parsed);
            let notes = chosen_notes(choices);
            if links_are_stale(files, cache, choices) {
                indexed(files, notes, link_graph(present(notes), view_paths(files)), refreshed)
            } else {
                indexed(files, notes, cache.links, refreshed)
            }
        }),
        indexed(files, fresh, link_graph(present(fresh), view_paths(files)), built),
    ensures
        refreshed == built,
        forall|i: int|
            0 <= i < files.len() ==> !((#[trigger] refresh_choices(files, cache, parsed)[i]) is Missing),
{
    let choices = refresh_choices(files, cache, parsed);
    let states = states_of(files, upserted_files(files, cache.files));
    let matched = matched_notes(files, cache.notes);
    let notes = chosen_notes(choices);
    assert forall|i: int| 0 <= i < files.len() implies !((#[trigger] choices[i]) is Missing)
        && notes[i] == fresh[i] by {
        assert(choices[i] == file_choice(files[i], states[i], parsed[i], matched[i]));
        assert(fresh[i] == fresh[i]);
    }
    assert(notes =~= fresh);
    if !links_are_stale(files, cache, choices) {
        law_kept_links_are_current(files, cache, parsed);
    }
    lemma_index_determined(
        files,
        fresh,
        link_graph(present(fresh), view_paths(files)),
        refreshed,
        built,
    );
}

} // verus!
