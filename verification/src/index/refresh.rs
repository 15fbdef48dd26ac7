//! Incremental refresh of an index.

use vstd::prelude::*;

use super::delta::{file_views, view_paths, FileDelta};
use super::entry::{note_paths, queued, reversed};
use super::inlinks::{note_ref_views, note_views};
use super::sort::{ascending, law_search_is_complete, places, strictly_ascending, SortedByPath};
use crate::file::{FileBase, FileView};
use crate::note::document::{Note, NoteView};
use crate::path::{
    lemma_path_lt_asymmetric, lemma_path_lt_irreflexive, lemma_path_lt_total,
    lemma_path_lt_transitive, path_lt, FilePath,
};

verus! {

/// How many rows a refresh changed.
#[derive(Copy, Clone, Debug, PartialEq, Eq, Structural)]
pub struct RefreshReport {
    upserted_count: usize,
    deleted_count: usize,
    links_modified_count: usize,
}

impl RefreshReport {
    /// Number of files inserted or updated.
    pub closed spec fn upserted(self) -> usize {
        self.upserted_count
    }

    /// Number of files deleted.
    pub closed spec fn deleted(self) -> usize {
        self.deleted_count
    }

    /// Number of links added or removed.
    pub closed spec fn links_modified(self) -> usize {
        self.links_modified_count
    }

    /// A report of these counts.
    pub fn new(
        upserted_count: usize,
        deleted_count: usize,
        links_modified_count: usize,
    ) -> (report: Self)
        ensures
            report.upserted() == upserted_count,
            report.deleted() == deleted_count,
            report.links_modified() == links_modified_count,
    {
        RefreshReport { upserted_count, deleted_count, links_modified_count }
    }

    /// Number of files inserted or updated.
    pub fn upserted_count(self) -> (count: usize)
        ensures
            count == self.upserted(),
    {
        self.upserted_count
    }

    /// Number of files deleted.
    pub fn deleted_count(self) -> (count: usize)
        ensures
            count == self.deleted(),
    {
        self.deleted_count
    }

    /// Number of links added or removed.
    pub fn links_modified_count(self) -> (count: usize)
        ensures
            count == self.links_modified(),
    {
        self.links_modified_count
    }
}

impl Default for RefreshReport {
    fn default() -> (report: Self)
        ensures
            report.upserted() == 0,
            report.deleted() == 0,
            report.links_modified() == 0,
    {
        RefreshReport { upserted_count: 0, deleted_count: 0, links_modified_count: 0 }
    }
}

/// The notes whose path is none of `paths`.
pub open spec fn notes_without(notes: Seq<NoteView>, paths: Seq<Seq<Seq<char>>>) -> Seq<NoteView>
    decreases notes.len(),
{
    if notes.len() == 0 {
        Seq::empty()
    } else {
        let before = notes_without(notes.drop_last(), paths);
        if paths.contains(notes.last().path) {
            before
        } else {
            before.push(notes.last())
        }
    }
}

/// Two series of notes in the order of their paths as one; where both have a
/// path, the note of `modified` stays.
pub open spec fn merged_notes(persisted: Seq<NoteView>, modified: Seq<NoteView>) -> Seq<NoteView>
    decreases persisted.len() + modified.len(),
{
    if persisted.len() == 0 {
        modified
    } else if modified.len() == 0 {
        persisted
    } else if path_lt(persisted[0].path, modified[0].path) {
        seq![persisted[0]] + merged_notes(persisted.drop_first(), modified)
    } else if path_lt(modified[0].path, persisted[0].path) {
        seq![modified[0]] + merged_notes(persisted, modified.drop_first())
    } else {
        seq![modified[0]] + merged_notes(persisted.drop_first(), modified.drop_first())
    }
}

/// The notes after a refresh: those persisted, without the deleted files, with
/// the modified ones in place of the old.
pub open spec fn refreshed_notes(
    persisted: Seq<NoteView>,
    deleted: Seq<FileView>,
    modified: Seq<NoteView>,
) -> Seq<NoteView> {
    merged_notes(notes_without(persisted, view_paths(deleted)), modified)
}

/// Leaving notes out keeps the others and their order.
pub proof fn lemma_notes_without(notes: Seq<NoteView>, paths: Seq<Seq<Seq<char>>>)
    ensures
        forall|n: NoteView| #[trigger]
            notes_without(notes, paths).contains(n) <==> notes.contains(n) && !paths.contains(
                n.path,
            ),
        ascending(note_paths(notes)) ==> ascending(note_paths(notes_without(notes, paths))),
        strictly_ascending(note_paths(notes)) ==> strictly_ascending(
            note_paths(notes_without(notes, paths)),
        ),
    decreases notes.len(),
{
    let all = notes_without(notes, paths);
    if notes.len() > 0 {
        let head = notes.drop_last();
        let last = notes.last();
        lemma_notes_without(head, paths);
        let before = notes_without(head, paths);
        assert forall|n: NoteView| #[trigger] all.contains(n) <==> notes.contains(n)
            && !paths.contains(n.path) by {
            if all.contains(n) {
                let i = choose|i: int| 0 <= i < all.len() && all[i] == n;
                if i < before.len() {
                    assert(before[i] == n);
                    assert(before.contains(n));
                    let k = choose|k: int| 0 <= k < head.len() && head[k] == n;
                    assert(notes[k] == n);
                } else {
                    assert(notes[notes.len() - 1] == n);
                }
            }
            if notes.contains(n) && !paths.contains(n.path) {
                let i = choose|i: int| 0 <= i < notes.len() && notes[i] == n;
                if i < notes.len() - 1 {
                    assert(head[i] == n);
                    assert(before.contains(n));
                    let k = choose|k: int| 0 <= k < before.len() && before[k] == n;
                    assert(all[k] == n);
                } else {
                    assert(all[all.len() - 1] == n);
                }
            }
        }
        let p = note_paths(notes);
        let h = note_paths(head);
        let b = note_paths(before);
        let a = note_paths(all);
        assert forall|i: int| 0 <= i < before.len() implies exists|k: int|
            0 <= k < notes.len() - 1 && p[k] == #[trigger] b[i] by {
            assert(before.contains(before[i]));
            let k = choose|k: int| 0 <= k < head.len() && head[k] == before[i];
            assert(p[k] == b[i]);
        }
        if ascending(p) {
            assert(ascending(h)) by {
                assert forall|i: int, j: int| 0 <= i < j < h.len() implies !path_lt(
                    #[trigger] h[j],
                    #[trigger] h[i],
                ) by {
                    assert(h[i] == p[i] && h[j] == p[j]);
                }
            }
            assert forall|i: int, j: int| 0 <= i < j < a.len() implies !path_lt(
                #[trigger] a[j],
                #[trigger] a[i],
            ) by {
                assert(a[i] == b[i]);
                if j < before.len() {
                    assert(a[j] == b[j]);
                } else {
                    assert(a[j] == p[notes.len() - 1]);
                    let k = choose|k: int| 0 <= k < notes.len() - 1 && p[k] == b[i];
                }
            }
        }
        if strictly_ascending(p) {
            assert(strictly_ascending(h)) by {
                assert forall|i: int, j: int| 0 <= i < j < h.len() implies path_lt(
                    #[trigger] h[i],
                    #[trigger] h[j],
                ) by {
                    assert(h[i] == p[i] && h[j] == p[j]);
                }
            }
            assert forall|i: int, j: int| 0 <= i < j < a.len() implies path_lt(
                #[trigger] a[i],
                #[trigger] a[j],
            ) by {
                assert(a[i] == b[i]);
                if j < before.len() {
                    assert(a[j] == b[j]);
                } else {
                    assert(a[j] == p[notes.len() - 1]);
                    let k = choose|k: int| 0 <= k < notes.len() - 1 && p[k] == b[i];
                }
            }
        }
    }
}

proof fn lemma_notes_rest(notes: Seq<NoteView>)
    requires
        notes.len() > 0,
    ensures
        ascending(note_paths(notes)) ==> ascending(note_paths(notes.drop_first())),
        strictly_ascending(note_paths(notes)) ==> strictly_ascending(
            note_paths(notes.drop_first()),
        ),
        forall|n: NoteView| #[trigger]
            notes.contains(n) <==> n == notes[0] || notes.drop_first().contains(n),
        ascending(note_paths(notes)) ==> forall|n: NoteView| #[trigger]
            notes.contains(n) ==> !path_lt(n.path, notes[0].path),
        strictly_ascending(note_paths(notes)) ==> forall|n: NoteView| #[trigger]
            notes.drop_first().contains(n) ==> path_lt(notes[0].path, n.path),
{
    let p = note_paths(notes);
    let rest = notes.drop_first();
    let q = note_paths(rest);
    assert forall|i: int| 0 <= i < q.len() implies #[trigger] q[i] == p[i + 1] by {}
    assert forall|n: NoteView| #[trigger] notes.contains(n) <==> n == notes[0] || rest.contains(
        n,
    ) by {
        if notes.contains(n) {
            let i = choose|i: int| 0 <= i < notes.len() && notes[i] == n;
            if i > 0 {
                assert(rest[i - 1] == n);
            }
        }
        if rest.contains(n) {
            let i = choose|i: int| 0 <= i < rest.len() && rest[i] == n;
            assert(notes[i + 1] == n);
        }
    }
    if ascending(p) {
        assert forall|n: NoteView| #[trigger] notes.contains(n) implies !path_lt(
            n.path,
            notes[0].path,
        ) by {
            let i = choose|i: int| 0 <= i < notes.len() && notes[i] == n;
            assert(p[i] == n.path && p[0] == notes[0].path);
            if i == 0 {
                lemma_path_lt_irreflexive(p[0]);
            }
        }
    }
    if strictly_ascending(p) {
        assert forall|n: NoteView| #[trigger] rest.contains(n) implies path_lt(
            notes[0].path,
            n.path,
        ) by {
            let i = choose|i: int| 0 <= i < rest.len() && rest[i] == n;
            assert(p[i + 1] == n.path && p[0] == notes[0].path);
        }
    }
}

/// `all` is in order where it is `first`, which no other comes before, and an
/// ordered rest.
proof fn lemma_note_first(all: Seq<NoteView>, first: NoteView, rest: Seq<NoteView>)
    requires
        all =~= seq![first] + rest,
        ascending(note_paths(rest)),
        forall|n: NoteView| #[trigger] rest.contains(n) ==> !path_lt(n.path, first.path),
    ensures
        ascending(note_paths(all)),
        forall|n: NoteView| #[trigger] all.contains(n) <==> n == first || rest.contains(n),
{
    let a = note_paths(all);
    let r = note_paths(rest);
    assert forall|i: int, j: int| 0 <= i < j < a.len() implies !path_lt(
        #[trigger] a[j],
        #[trigger] a[i],
    ) by {
        assert(a[j] == r[j - 1]);
        if i == 0 {
            assert(rest.contains(rest[j - 1]));
        } else {
            assert(a[i] == r[i - 1]);
        }
    }
    assert forall|n: NoteView| #[trigger] all.contains(n) <==> n == first || rest.contains(n) by {
        if all.contains(n) {
            let i = choose|i: int| 0 <= i < all.len() && all[i] == n;
            if i > 0 {
                assert(rest[i - 1] == n);
            }
        }
        if rest.contains(n) {
            let i = choose|i: int| 0 <= i < rest.len() && rest[i] == n;
            assert(all[i + 1] == n);
        }
        assert(all[0] == first);
    }
}

/// Merging keeps notes in order and brings in none from elsewhere.
proof fn lemma_merged_ascending(persisted: Seq<NoteView>, modified: Seq<NoteView>)
    requires
        ascending(note_paths(persisted)),
        ascending(note_paths(modified)),
    ensures
        ascending(note_paths(merged_notes(persisted, modified))),
        forall|n: NoteView| #[trigger]
            merged_notes(persisted, modified).contains(n) ==> persisted.contains(n)
                || modified.contains(n),
    decreases persisted.len() + modified.len(),
{
    let all = merged_notes(persisted, modified);
    if persisted.len() > 0 && modified.len() > 0 {
        let p = persisted[0];
        let m = modified[0];
        lemma_notes_rest(persisted);
        lemma_notes_rest(modified);
        let old_first = path_lt(p.path, m.path);
        let new_first = path_lt(m.path, p.path);
        let x = if new_first && !old_first {
            persisted
        } else {
            persisted.drop_first()
        };
        let y = if old_first {
            modified
        } else {
            modified.drop_first()
        };
        let first = if old_first {
            p
        } else {
            m
        };
        lemma_merged_ascending(x, y);
        let rest = merged_notes(x, y);
        assert(all =~= seq![first] + rest);
        assert forall|n: NoteView| #[trigger] rest.contains(n) implies !path_lt(
            n.path,
            first.path,
        ) by {
            assert(x.contains(n) || y.contains(n));
            assert(persisted.contains(n) || modified.contains(n));
            lemma_path_lt_total(p.path, m.path);
            if path_lt(n.path, first.path) {
                if persisted.contains(n) {
                    if new_first && !old_first {
                        lemma_path_lt_transitive(n.path, m.path, p.path);
                    }
                } else {
                    if old_first {
                        lemma_path_lt_transitive(n.path, p.path, m.path);
                    }
                }
            }
        }
        lemma_note_first(all, first, rest);
    }
}

/// Where no path repeats, the merged notes are the modified ones and those
/// persisted ones that none of them replaces.
pub proof fn law_merge_replaces(persisted: Seq<NoteView>, modified: Seq<NoteView>, note: NoteView)
    requires
        strictly_ascending(note_paths(persisted)),
        strictly_ascending(note_paths(modified)),
    ensures
        merged_notes(persisted, modified).contains(note) <==> modified.contains(note) || (
        persisted.contains(note) && !note_paths(modified).contains(note.path)),
    decreases persisted.len() + modified.len(),
{
    let all = merged_notes(persisted, modified);
    if persisted.len() == 0 {
    } else if modified.len() == 0 {
        assert(note_paths(modified) =~= Seq::empty());
    } else {
        let p = persisted[0];
        let m = modified[0];
        lemma_notes_rest(persisted);
        lemma_notes_rest(modified);
        lemma_path_lt_total(p.path, m.path);
        lemma_paths_rest(modified, note.path);
        if path_lt(p.path, m.path) {
            law_merge_replaces(persisted.drop_first(), modified, note);
            lemma_cons_contains(all, p, merged_notes(persisted.drop_first(), modified), note);
            if note_paths(modified).contains(p.path) {
                lemma_no_earlier_path(modified, p.path);
            }
        } else if path_lt(m.path, p.path) {
            law_merge_replaces(persisted, modified.drop_first(), note);
            lemma_cons_contains(all, m, merged_notes(persisted, modified.drop_first()), note);
            if persisted.contains(note) && note.path == m.path {
                lemma_strict_is_ascending(persisted);
                assert(!path_lt(note.path, p.path));
            }
        } else {
            law_merge_replaces(persisted.drop_first(), modified.drop_first(), note);
            lemma_cons_contains(
                all,
                m,
                merged_notes(persisted.drop_first(), modified.drop_first()),
                note,
            );
            if persisted.drop_first().contains(note) && note.path == m.path {
                lemma_path_lt_irreflexive(p.path);
            }
        }
    }
}

proof fn lemma_strict_is_ascending(notes: Seq<NoteView>)
    requires
        strictly_ascending(note_paths(notes)),
    ensures
        ascending(note_paths(notes)),
        notes.len() > 0 ==> forall|n: NoteView| #[trigger]
            notes.contains(n) ==> !path_lt(n.path, notes[0].path),
{
    super::sort::law_strict_paths_are_distinct(note_paths(notes));
    if notes.len() > 0 {
        lemma_notes_rest(notes);
    }
}

proof fn lemma_no_earlier_path(notes: Seq<NoteView>, path: Seq<Seq<char>>)
    requires
        notes.len() > 0,
        strictly_ascending(note_paths(notes)),
        path_lt(path, notes[0].path),
    ensures
        !note_paths(notes).contains(path),
{
    let p = note_paths(notes);
    if p.contains(path) {
        let i = choose|i: int| 0 <= i < p.len() && p[i] == path;
        lemma_path_lt_irreflexive(path);
        if i > 0 {
            assert(path_lt(p[0], p[i]));
            lemma_path_lt_asymmetric(path, p[0]);
        }
    }
}

proof fn lemma_paths_rest(notes: Seq<NoteView>, path: Seq<Seq<char>>)
    requires
        notes.len() > 0,
    ensures
        note_paths(notes).contains(path) <==> notes[0].path == path || note_paths(
            notes.drop_first(),
        ).contains(path),
{
    let p = note_paths(notes);
    let q = note_paths(notes.drop_first());
    if p.contains(path) {
        let i = choose|i: int| 0 <= i < p.len() && p[i] == path;
        if i > 0 {
            assert(q[i - 1] == path);
        }
    }
    if q.contains(path) {
        let i = choose|i: int| 0 <= i < q.len() && q[i] == path;
        assert(p[i + 1] == path);
    }
    assert(p[0] == notes[0].path);
}

proof fn lemma_cons_contains(
    all: Seq<NoteView>,
    first: NoteView,
    rest: Seq<NoteView>,
    note: NoteView,
)
    requires
        all =~= seq![first] + rest,
    ensures
        all.contains(note) <==> note == first || rest.contains(note),
{
    if all.contains(note) {
        let i = choose|i: int| 0 <= i < all.len() && all[i] == note;
        if i > 0 {
            assert(rest[i - 1] == note);
        }
    }
    if rest.contains(note) {
        let i = choose|i: int| 0 <= i < rest.len() && rest[i] == note;
        assert(all[i + 1] == note);
    }
    assert(all[0] == first);
}

/// The paths of notes as rows and by their contents.
pub proof fn lemma_note_places(notes: Seq<Note>)
    ensures
        places(notes) == note_paths(note_views(notes)),
{
    assert(places(notes) =~= note_paths(note_views(notes)));
}

fn has_file_at(files: &Vec<FileBase>, path: &FilePath) -> (found: bool)
    ensures
        found == view_paths(file_views(files@)).contains(path@),
{
    let ghost paths = view_paths(file_views(files@));
    let mut i: usize = 0;
    while i < files.len()
        invariant
            i <= files@.len(),
            paths == view_paths(file_views(files@)),
            forall|k: int| 0 <= k < i ==> (#[trigger] paths[k]) != path@,
        decreases files@.len() - i,
    {
        assert(paths[i as int] == files@[i as int]@.path);
        if files[i].path().same(path) {
            return true;
        }
        i = i + 1;
    }
    false
}

fn drop_deleted(notes: Vec<Note>, deleted: &Vec<FileBase>) -> (kept: Vec<Note>)
    ensures
        note_views(kept@) == notes_without(note_views(notes@), view_paths(file_views(deleted@))),
{
    let ghost views = note_views(notes@);
    let ghost gone = view_paths(file_views(deleted@));
    let mut kept: Vec<Note> = Vec::new();
    proof {
        assert(views.take(0) =~= Seq::empty());
        assert(note_views(kept@) =~= Seq::empty());
    }
    for note in it: notes
        invariant
            views == note_views(it.seq()),
            gone == view_paths(file_views(deleted@)),
            note_views(kept@) == notes_without(views.take(it.index()), gone),
    {
        let ghost before = kept@;
        proof {
            let next = views.take(it.index() + 1);
            assert(next.drop_last() =~= views.take(it.index()));
            assert(next.last() == note@);
        }
        if !has_file_at(deleted, note.path()) {
            kept.push(note);
            assert(note_views(kept@) =~= note_views(before).push(note@));
        }
    }
    assert(views.take(views.len() as int) =~= views);
    kept
}

/// The notes after a refresh, in the order of their paths. Notes of deleted
/// files go, and modified notes take the place of the stored ones.
pub fn merge_refreshed_notes(
    stored: SortedByPath<Note>,
    delta: &FileDelta,
    modified: SortedByPath<Note>,
) -> (notes: SortedByPath<Note>)
    ensures
        note_views(notes@) == refreshed_notes(
            note_views(stored@),
            delta@.deleted,
            note_views(modified@),
        ),
{
    let ghost fresh = note_views(modified@);
    let ghost gone = view_paths(delta@.deleted);
    let ghost kept_views = notes_without(note_views(stored@), gone);
    let stored_rows = stored.into_vec();
    proof {
        lemma_note_places(stored_rows@);
        lemma_notes_without(note_views(stored_rows@), gone);
    }
    let kept = drop_deleted(stored_rows, delta.deleted());
    let modified_rows = modified.into_vec();
    proof {
        lemma_note_places(modified_rows@);
        lemma_merged_ascending(kept_views, fresh);
    }
    let mut old_notes = reversed(kept);
    let mut new_notes = reversed(modified_rows);
    let ghost whole = merged_notes(kept_views, fresh);
    let mut merged: Vec<Note> = Vec::new();
    proof {
        assert(queued(old_notes@) =~= kept_views);
        assert(queued(new_notes@) =~= fresh);
        assert(note_views(merged@) + whole =~= whole);
    }
    while old_notes.len() > 0 || new_notes.len() > 0
        invariant
            note_views(merged@) + merged_notes(queued(old_notes@), queued(new_notes@)) == whole,
        decreases old_notes@.len() + new_notes@.len(),
    {
        let m: usize = old_notes.len();
        let n: usize = new_notes.len();
        let ghost so_far = note_views(merged@);
        let ghost x = queued(old_notes@);
        let ghost y = queued(new_notes@);
        proof {
            if m > 0 {
                assert(x[0] == old_notes@[m - 1]@);
            }
            if n > 0 {
                assert(y[0] == new_notes@[n - 1]@);
            }
        }
        let take_old = n == 0 || (m > 0 && old_notes[m - 1].path().before(
            new_notes[n - 1].path(),
        ));
        if take_old {
            if let Some(note) = old_notes.pop() {
                merged.push(note);
                proof {
                    assert(queued(old_notes@) =~= x.drop_first());
                    assert(note_views(merged@) =~= so_far.push(x[0]));
                    let rest = merged_notes(x.drop_first(), y);
                    assert(merged_notes(x, y) =~= seq![x[0]] + rest) by {
                        if y.len() == 0 {
                            assert(x =~= seq![x[0]] + x.drop_first());
                            if x.drop_first().len() == 0 {
                                assert(y =~= x.drop_first());
                            }
                        }
                    }
                    assert(so_far + (seq![x[0]] + rest) =~= note_views(merged@) + rest);
                }
            }
        } else {
            let replaces = m > 0 && !new_notes[n - 1].path().before(old_notes[m - 1].path());
            if replaces {
                old_notes.pop();
                assert(queued(old_notes@) =~= x.drop_first());
            }
            if let Some(note) = new_notes.pop() {
                merged.push(note);
                proof {
                    assert(queued(new_notes@) =~= y.drop_first());
                    assert(note_views(merged@) =~= so_far.push(y[0]));
                    let rest = merged_notes(queued(old_notes@), y.drop_first());
                    assert(merged_notes(x, y) =~= seq![y[0]] + rest) by {
                        if x.len() == 0 {
                            assert(y =~= seq![y[0]] + y.drop_first());
                        }
                    }
                    assert(so_far + (seq![y[0]] + rest) =~= note_views(merged@) + rest);
                }
            }
        }
    }
    proof {
        assert(merged_notes(queued(old_notes@), queued(new_notes@)) =~= Seq::empty());
        assert(note_views(merged@) =~= whole);
        lemma_note_places(merged@);
    }
    SortedByPath::assumed_sorted(merged)
}

/// The notes that a refresh brings.
#[derive(Debug)]
pub enum NoteScope {
    /// Only those of changed files; the others are stored.
    Modified(SortedByPath<Note>),
    /// All of them.
    Complete(SortedByPath<Note>),
}

/// The files of `files` that have a note among `notes`.
pub open spec fn files_with_note(files: Seq<FileView>, notes: Seq<NoteView>) -> Seq<FileView>
    decreases files.len(),
{
    if files.len() == 0 {
        Seq::empty()
    } else {
        let before = files_with_note(files.drop_last(), notes);
        if note_paths(notes).contains(files.last().path) {
            before.push(files.last())
        } else {
            before
        }
    }
}

/// `found` are notes of `notes`, one for each file of `files` that has one.
pub open spec fn picks_notes(
    found: Seq<NoteView>,
    files: Seq<FileView>,
    notes: Seq<NoteView>,
) -> bool {
    let hits = files_with_note(files, notes);
    &&& found.len() == hits.len()
    &&& forall|i: int| #![trigger found[i]]
        0 <= i < found.len() ==> found[i].path == hits[i].path && notes.contains(found[i])
}

impl NoteScope {
    /// The notes to write: all modified ones, or those of the complete set whose
    /// file was upserted.
    pub fn to_upsert(&self, upserted: &Vec<FileBase>) -> (notes: Vec<&Note>)
        ensures
            match self {
                NoteScope::Modified(all) => note_ref_views(notes@) == note_views(all@),
                NoteScope::Complete(all) => picks_notes(
                    note_ref_views(notes@),
                    file_views(upserted@),
                    note_views(all@),
                ),
            },
    {
        let mut notes: Vec<&Note> = Vec::new();
        match self {
            NoteScope::Modified(all) => {
                let rows = all.as_rows();
                let mut i: usize = 0;
                while i < rows.len()
                    invariant
                        i <= rows@.len(),
                        notes@.len() == i,
                        forall|k: int| 0 <= k < i ==> (#[trigger] notes@[k])@ == rows@[k]@,
                    decreases rows@.len() - i,
                {
                    notes.push(&rows[i]);
                    i = i + 1;
                }
                assert(note_ref_views(notes@) =~= note_views(all@));
            },
            NoteScope::Complete(all) => {
                let rows = all.as_rows();
                let ghost views = note_views(rows@);
                let ghost files = file_views(upserted@);
                proof {
                    lemma_note_places(rows@);
                    assert(files.take(0) =~= Seq::empty());
                }
                let mut i: usize = 0;
                while i < upserted.len()
                    invariant
                        i <= upserted@.len(),
                        rows@ == all@,
                        views == note_views(rows@),
                        places(rows@) == note_paths(views),
                        files == file_views(upserted@),
                        picks_notes(note_ref_views(notes@), files.take(i as int), views),
                    decreases upserted@.len() - i,
                {
                    let ghost before = note_ref_views(notes@);
                    let ghost next = files.take(i + 1);
                    proof {
                        assert(next.drop_last() =~= files.take(i as int));
                        assert(next.last() == upserted@[i as int]@);
                    }
                    match all.binary_search_by_path(upserted[i].path()) {
                        Ok(at) => {
                            let ghost hits = files_with_note(files.take(i as int), views);
                            proof {
                                assert(note_paths(views)[at as int] == next.last().path);
                                assert(views[at as int] == rows@[at as int]@);
                                assert(views.contains(views[at as int]));
                            }
                            notes.push(&rows[at]);
                            proof {
                                let now = note_ref_views(notes@);
                                assert(now =~= before.push(views[at as int]));
                                assert(files_with_note(next, views) =~= hits.push(next.last()));
                                assert forall|k: int| #![trigger now[k]] 0 <= k < now.len() implies
                                now[k].path == files_with_note(next, views)[k].path
                                    && views.contains(now[k]) by {
                                    if k < before.len() {
                                        assert(now[k] == before[k]);
                                    }
                                }
                            }
                        },
                        Err(at) => {
                            proof {
                                law_search_is_complete(
                                    all@,
                                    upserted@[i as int]@.path,
                                    at as int,
                                );
                            }
                        },
                    }
                    i = i + 1;
                }
                assert(files.take(i as int) =~= files);
            },
        }
        notes
    }

    /// All notes, in the order of their paths. Where only the modified ones are
    /// at hand, `stored` gives the others.
    pub fn resolve(self, stored: SortedByPath<Note>, delta: &FileDelta) -> (notes: SortedByPath<
        Note,
    >)
        ensures
            note_views(notes@) == match self {
                NoteScope::Modified(modified) => refreshed_notes(
                    note_views(stored@),
                    delta@.deleted,
                    note_views(modified@),
                ),
                NoteScope::Complete(all) => note_views(all@),
            },
    {
        match self {
            NoteScope::Modified(modified) => merge_refreshed_notes(stored, delta, modified),
            NoteScope::Complete(all) => all,
        }
    }
}

} // verus!
