//! Planning a refresh and applying it.

use vstd::prelude::*;

use super::delta::{
    deleted_files, file_views, has_path, has_same, law_deleted_are_gone,
    law_upserted_are_new_or_changed, upserted_files, view_paths, FileDelta, FileDeltaView,
    InlinkDelta, InlinkDeltaView,
};
use super::entry::{assembled, note_paths, WorkspaceIndex};
use super::inlinks::{
    law_listed_edges_are_the_graph, link_graph, listed_edges, note_edge, note_ref_views,
    note_views, resolve_edges_for, InlinkMap,
};
use super::refresh::{
    lemma_notes_without, law_merge_replaces, merge_refreshed_notes, merged_notes, notes_without,
    picks_notes, refreshed_notes, NoteScope, RefreshReport,
};
use super::sort::{
    law_members_determine_order, law_search_is_complete, places, strictly_ascending, SortedByPath,
};
use super::spelling::{graph_spelling, Spelling};
use crate::file::{same_file, FileBase, FileView};
use crate::note::document::{Note, NoteView};
use crate::path::FilePath;
use crate::query::record::file_paths;

verus! {

/// Only the contents of files changed, none was added or removed.
pub open spec fn paths_unchanged(delta: FileDeltaView, persisted: Seq<FileView>) -> bool {
    &&& delta.deleted.len() == 0
    &&& forall|i: int|
        0 <= i < delta.upserted.len() ==> has_path(persisted, (#[trigger] delta.upserted[i]).path)
}

/// The links after notes were edited, where no file was added or removed.
pub open spec fn patched_links(
    links: Set<(Seq<Seq<char>>, Seq<Seq<char>>)>,
    modified: Seq<NoteView>,
    paths: Seq<Seq<Seq<char>>>,
) -> Set<(Seq<Seq<char>>, Seq<Seq<char>>)> {
    links.filter(
        |edge: (Seq<Seq<char>>, Seq<Seq<char>>)| !note_paths(modified).contains(edge.1),
    ).union(listed_edges(modified, paths).to_set())
}

/// A scan held against what was persisted, before notes are parsed.
pub struct RefreshPlan {
    current_files: SortedByPath<FileBase>,
    persisted_files: SortedByPath<FileBase>,
    prev_links: InlinkMap,
    delta: FileDelta,
}

/// Contents of a [`RefreshPlan`].
pub struct PlanView {
    /// The files found.
    pub current: Seq<FileView>,
    /// The files persisted.
    pub persisted: Seq<FileView>,
    /// The links persisted.
    pub links: Set<(Seq<Seq<char>>, Seq<Seq<char>>)>,
}

impl PlanView {
    /// What changed.
    pub open spec fn delta(self) -> FileDeltaView {
        FileDeltaView {
            upserted: upserted_files(self.current, self.persisted),
            deleted: deleted_files(self.current, self.persisted),
        }
    }
}

impl View for RefreshPlan {
    type V = PlanView;

    closed spec fn view(&self) -> PlanView {
        PlanView {
            current: file_views(self.current_files@),
            persisted: file_views(self.persisted_files@),
            links: self.prev_links@,
        }
    }
}

proof fn lemma_file_places(files: Seq<FileBase>)
    ensures
        places(files) == view_paths(file_views(files)),
{
    assert(places(files) =~= view_paths(file_views(files)));
}

fn copy_note_paths(notes: &Vec<Note>) -> (paths: Vec<FilePath>)
    ensures
        file_paths(paths@) == note_paths(note_views(notes@)),
{
    let mut paths: Vec<FilePath> = Vec::new();
    let mut i: usize = 0;
    while i < notes.len()
        invariant
            i <= notes@.len(),
            paths@.len() == i,
            forall|k: int| 0 <= k < i ==> (#[trigger] paths@[k])@ == notes@[k]@.path,
        decreases notes@.len() - i,
    {
        paths.push(notes[i].path().copy());
        i = i + 1;
    }
    assert(file_paths(paths@) =~= note_paths(note_views(notes@)));
    paths
}

impl RefreshPlan {
    /// How the persisted links are written.
    pub closed spec fn spelling(self) -> Spelling {
        self.prev_links.spelling()
    }

    #[verifier::type_invariant]
    spec fn is_diffed(self) -> bool {
        self.delta@ == (FileDeltaView {
            upserted: upserted_files(
                file_views(self.current_files@),
                file_views(self.persisted_files@),
            ),
            deleted: deleted_files(
                file_views(self.current_files@),
                file_views(self.persisted_files@),
            ),
        })
    }

    /// Holds the files found against the files and links persisted.
    pub fn new(
        current_files: SortedByPath<FileBase>,
        persisted_files: SortedByPath<FileBase>,
        prev_links: InlinkMap,
    ) -> (plan: Self)
        ensures
            plan@ == (PlanView {
                current: file_views(current_files@),
                persisted: file_views(persisted_files@),
                links: prev_links@,
            }),
            plan.spelling() == prev_links.spelling(),
    {
        let delta = FileDelta::compute(&current_files, &persisted_files);
        RefreshPlan { current_files, persisted_files, prev_links, delta }
    }

    /// Whether nothing changed.
    pub fn is_empty(&self) -> (empty: bool)
        ensures
            empty == (self@.delta().upserted.len() == 0 && self@.delta().deleted.len() == 0),
    {
        proof {
            use_type_invariant(self);
        }
        self.delta.is_empty()
    }

    /// The files whose notes have to be parsed.
    pub fn upserted_files(&self) -> (files: &Vec<FileBase>)
        ensures
            file_views(files@) == self@.delta().upserted,
    {
        proof {
            use_type_invariant(self);
        }
        self.delta.upserted()
    }

    /// The files and links of a plan without changes.
    pub fn into_unchanged(self) -> (state: (SortedByPath<FileBase>, InlinkMap))
        ensures
            file_views(state.0@) == self@.current,
            state.1@ == self@.links,
            state.1.spelling() == self.spelling(),
    {
        (self.current_files, self.prev_links)
    }

    /// Whether only the contents of files changed. Only then do the links of
    /// notes that were not edited stay what they were.
    pub fn is_paths_unchanged(&self) -> (unchanged: bool)
        ensures
            unchanged == paths_unchanged(self@.delta(), self@.persisted),
    {
        proof {
            use_type_invariant(self);
        }
        if self.delta.deleted().len() > 0 {
            return false;
        }
        let upserted = self.delta.upserted();
        let ghost ups = file_views(upserted@);
        let ghost persisted = self@.persisted;
        let mut i: usize = 0;
        while i < upserted.len()
            invariant
                i <= upserted@.len(),
                ups == file_views(upserted@),
                persisted == file_views(self.persisted_files@),
                ups == self@.delta().upserted,
                persisted == self@.persisted,
                forall|k: int| 0 <= k < i ==> has_path(persisted, (#[trigger] ups[k]).path),
            decreases upserted@.len() - i,
        {
            assert(ups[i as int] == upserted@[i as int]@);
            match self.persisted_files.binary_search_by_path(upserted[i].path()) {
                Ok(at) => {
                    assert(persisted[at as int].path == ups[i as int].path);
                },
                Err(at) => {
                    proof {
                        let files = self.persisted_files@;
                        law_search_is_complete(files, ups[i as int].path, at as int);
                        if has_path(persisted, ups[i as int].path) {
                            let k = choose|k: int|
                                0 <= k < persisted.len() && (#[trigger] persisted[k]).path
                                    == ups[i as int].path;
                            assert(places(files)[k] == ups[i as int].path);
                        }
                    }
                    return false;
                },
            }
            i = i + 1;
        }
        true
    }

    /// The update for the notes of the changed files. Where only contents
    /// changed, the links of the edited notes replace those they had, and `stored`
    /// is not needed. Else all links are resolved anew, over the stored notes and
    /// the modified ones.
    pub fn reconcile(self, modified: SortedByPath<Note>, stored: SortedByPath<Note>) -> (update:
        IndexUpdate)
        ensures
            update@.files == self@.current,
            update@.delta == self@.delta(),
            update@.follows(self@.links),
            update.is_spelled_after(self.spelling()),
            if paths_unchanged(self@.delta(), self@.persisted) {
                &&& update.spelling().within(
                    self.spelling().or(graph_spelling(note_views(modified@), self@.current)),
                )
                &&& update@.links == patched_links(
                    self@.links,
                    note_views(modified@),
                    view_paths(self@.current),
                )
                &&& update@.scope == ScopeView::Modified(note_views(modified@))
            } else {
                let notes = refreshed_notes(
                    note_views(stored@),
                    self@.delta().deleted,
                    note_views(modified@),
                );
                &&& update@.links == link_graph(notes, view_paths(self@.current))
                &&& update.spelling().within(graph_spelling(notes, self@.current))
                &&& update@.scope == ScopeView::Complete(notes)
            },
    {
        if self.is_paths_unchanged() {
            self.patch(modified)
        } else {
            self.rebuild(modified, stored)
        }
    }

    /// The update where only contents changed: the links of the edited notes
    /// replace those they had.
    pub fn patch(self, modified: SortedByPath<Note>) -> (update: IndexUpdate)
        requires
            paths_unchanged(self@.delta(), self@.persisted),
        ensures
            update@.files == self@.current,
            update@.delta == self@.delta(),
            update@.links == patched_links(
                self@.links,
                note_views(modified@),
                view_paths(self@.current),
            ),
            update@.scope == ScopeView::Modified(note_views(modified@)),
            update@.follows(self@.links),
            update.spelling().within(
                self.spelling().or(graph_spelling(note_views(modified@), self@.current)),
            ),
            update.is_spelled_after(self.spelling()),
    {
        proof {
            use_type_invariant(&self);
            lemma_file_places(self.current_files@);
        }
        let rows = modified.as_rows();
        let edited = copy_note_paths(rows);
        let edges = resolve_edges_for(rows, &self.current_files);
        let links = self.prev_links.without_sources(&edited).with_edges(edges);
        let inlink_delta = InlinkDelta::compute(&links, &self.prev_links);
        IndexUpdate {
            current_files: self.current_files,
            delta: self.delta,
            links,
            notes: NoteScope::Modified(modified),
            inlink_delta,
        }
    }

    /// The update where files were added or removed: all links are resolved
    /// anew, over the stored notes and the modified ones.
    pub fn rebuild(self, modified: SortedByPath<Note>, stored: SortedByPath<Note>) -> (update:
        IndexUpdate)
        ensures
            update@.files == self@.current,
            update@.delta == self@.delta(),
            ({
                let notes = refreshed_notes(
                    note_views(stored@),
                    self@.delta().deleted,
                    note_views(modified@),
                );
                &&& update@.links == link_graph(notes, view_paths(self@.current))
                &&& update.spelling().within(graph_spelling(notes, self@.current))
                &&& update@.scope == ScopeView::Complete(notes)
            }),
            update@.follows(self@.links),
            update.is_spelled_after(self.spelling()),
    {
        proof {
            use_type_invariant(&self);
            lemma_file_places(self.current_files@);
        }
        let notes = merge_refreshed_notes(stored, &self.delta, modified);
        let links = InlinkMap::new(notes.as_rows(), &self.current_files);
        let inlink_delta = InlinkDelta::compute(&links, &self.prev_links);
        IndexUpdate {
            current_files: self.current_files,
            delta: self.delta,
            links,
            notes: NoteScope::Complete(notes),
            inlink_delta,
        }
    }
}

/// Contents of a [`NoteScope`].
pub enum ScopeView {
    /// Only the notes of changed files.
    Modified(Seq<NoteView>),
    /// All notes.
    Complete(Seq<NoteView>),
}

/// Contents of an [`IndexUpdate`].
pub struct UpdateView {
    /// The files found.
    pub files: Seq<FileView>,
    /// What changed in the files.
    pub delta: FileDeltaView,
    /// All links.
    pub links: Set<(Seq<Seq<char>>, Seq<Seq<char>>)>,
    /// The notes at hand.
    pub scope: ScopeView,
    /// What changed in the links.
    pub inlink_delta: InlinkDeltaView,
}

impl UpdateView {
    /// The changes of links are those since `before`.
    pub open spec fn follows(self, before: Set<(Seq<Seq<char>>, Seq<Seq<char>>)>) -> bool {
        &&& self.inlink_delta.upserted.no_duplicates()
        &&& self.inlink_delta.upserted.to_set() == self.links.difference(before)
        &&& self.inlink_delta.deleted.no_duplicates()
        &&& self.inlink_delta.deleted.to_set() == before.difference(self.links)
    }
}

/// What a refresh found, not yet written.
pub struct IndexUpdate {
    current_files: SortedByPath<FileBase>,
    delta: FileDelta,
    links: InlinkMap,
    notes: NoteScope,
    inlink_delta: InlinkDelta,
}

/// The contents of a scope.
pub open spec fn scope_view(scope: NoteScope) -> ScopeView {
    match scope {
        NoteScope::Modified(notes) => ScopeView::Modified(note_views(notes@)),
        NoteScope::Complete(notes) => ScopeView::Complete(note_views(notes@)),
    }
}

impl View for IndexUpdate {
    type V = UpdateView;

    closed spec fn view(&self) -> UpdateView {
        UpdateView {
            files: file_views(self.current_files@),
            delta: self.delta@,
            links: self.links@,
            scope: scope_view(self.notes),
            inlink_delta: self.inlink_delta@,
        }
    }
}

impl IndexUpdate {
    /// How the links are written.
    pub closed spec fn spelling(self) -> Spelling {
        self.links.spelling()
    }

    /// How the links that are new are written.
    pub closed spec fn upserted_spelling(self) -> Spelling {
        self.inlink_delta.upserted_spelling()
    }

    /// How the links that are gone are written.
    pub closed spec fn deleted_spelling(self) -> Spelling {
        self.inlink_delta.deleted_spelling()
    }

    /// New links are written as those at hand, links that are gone as `before`.
    pub open spec fn is_spelled_after(self, before: Spelling) -> bool {
        &&& self.upserted_spelling().within(self.spelling())
        &&& self.deleted_spelling().within(before)
    }

    /// An update of these parts.
    pub fn new(
        current_files: SortedByPath<FileBase>,
        delta: FileDelta,
        links: InlinkMap,
        notes: NoteScope,
        inlink_delta: InlinkDelta,
    ) -> (update: Self)
        ensures
            update@ == (UpdateView {
                files: file_views(current_files@),
                delta: delta@,
                links: links@,
                scope: scope_view(notes),
                inlink_delta: inlink_delta@,
            }),
            update.spelling() == links.spelling(),
            update.upserted_spelling() == inlink_delta.upserted_spelling(),
            update.deleted_spelling() == inlink_delta.deleted_spelling(),
    {
        IndexUpdate { current_files, delta, links, notes, inlink_delta }
    }

    /// How many rows change. The count of links stops at the largest number.
    pub fn report(&self) -> (report: RefreshReport)
        ensures
            report.upserted() == self@.delta.upserted.len(),
            report.deleted() == self@.delta.deleted.len(),
            ({
                let links = self@.inlink_delta.upserted.len() + self@.inlink_delta.deleted.len();
                report.links_modified() == if links > usize::MAX {
                    usize::MAX as int
                } else {
                    links as int
                }
            }),
    {
        RefreshReport::new(
            self.delta.upserted().len(),
            self.delta.deleted().len(),
            self.inlink_delta.upserted().len().saturating_add(self.inlink_delta.deleted().len()),
        )
    }

    /// What changed in the files.
    pub fn delta(&self) -> (delta: &FileDelta)
        ensures
            delta@ == self@.delta,
    {
        &self.delta
    }

    /// What changed in the links.
    pub fn inlink_delta(&self) -> (delta: &InlinkDelta)
        ensures
            delta@ == self@.inlink_delta,
            delta.upserted_spelling() == self.upserted_spelling(),
            delta.deleted_spelling() == self.deleted_spelling(),
    {
        &self.inlink_delta
    }

    /// The notes to write.
    pub fn notes_to_upsert(&self) -> (notes: Vec<&Note>)
        ensures
            match self@.scope {
                ScopeView::Modified(all) => note_ref_views(notes@) == all,
                ScopeView::Complete(all) => picks_notes(
                    note_ref_views(notes@),
                    self@.delta.upserted,
                    all,
                ),
            },
    {
        self.notes.to_upsert(self.delta.upserted())
    }

    /// Whether the stored notes are needed to build the index.
    pub fn needs_stored_notes(&self) -> (needed: bool)
        ensures
            needed == (self@.scope is Modified),
    {
        matches!(self.notes, NoteScope::Modified(_))
    }

    /// The index after this update. `stored` are the stored notes, which count
    /// where only the modified ones are at hand.
    pub fn into_index(self, stored: SortedByPath<Note>) -> (index: WorkspaceIndex)
        ensures
            ({
                let notes = match self@.scope {
                    ScopeView::Modified(modified) => refreshed_notes(
                        note_views(stored@),
                        self@.delta.deleted,
                        modified,
                    ),
                    ScopeView::Complete(all) => all,
                };
                assembled(self@.files, notes, self@.links, index@)
            }),
            index.inlink_texts().subset_of(self.spelling().sources),
    {
        let notes = self.notes.resolve(stored, &self.delta);
        WorkspaceIndex::assemble(self.current_files, notes, self.links)
    }
}

/// Where only contents changed, the files are at the same paths as before.
pub proof fn law_unchanged_paths_are_the_same(current: Seq<FileView>, persisted: Seq<FileView>)
    requires
        strictly_ascending(view_paths(current)),
        strictly_ascending(view_paths(persisted)),
        paths_unchanged(
            FileDeltaView {
                upserted: upserted_files(current, persisted),
                deleted: deleted_files(current, persisted),
            },
            persisted,
        ),
    ensures
        view_paths(current) == view_paths(persisted),
{
    let ups = upserted_files(current, persisted);
    let dels = deleted_files(current, persisted);
    let a = view_paths(current);
    let b = view_paths(persisted);
    assert forall|path: Seq<Seq<char>>| #[trigger] a.contains(path) <==> b.contains(path) by {
        if a.contains(path) {
            let i = choose|i: int| 0 <= i < a.len() && a[i] == path;
            let file = current[i];
            assert(current.contains(file));
            law_upserted_are_new_or_changed(current, persisted, file);
            if has_same(persisted, file) {
                let k = choose|k: int|
                    0 <= k < persisted.len() && same_file(#[trigger] persisted[k], file);
                assert(b[k] == path);
            } else {
                let k = choose|k: int| 0 <= k < ups.len() && ups[k] == file;
                assert(has_path(persisted, ups[k].path));
                let m = choose|m: int|
                    0 <= m < persisted.len() && (#[trigger] persisted[m]).path == path;
                assert(b[m] == path);
            }
        }
        if b.contains(path) {
            let i = choose|i: int| 0 <= i < b.len() && b[i] == path;
            let file = persisted[i];
            assert(persisted.contains(file));
            law_deleted_are_gone(current, persisted, file);
            if !has_path(current, path) {
                assert(dels.contains(file));
            }
            let k = choose|k: int| 0 <= k < current.len() && (#[trigger] current[k]).path == path;
            assert(a[k] == path);
        }
    }
    law_members_determine_order(a, b);
}

/// Where no file was added or removed, patching the links gives what resolving
/// all of them anew would give.
pub proof fn law_patching_equals_rebuilding(
    stored: Seq<NoteView>,
    modified: Seq<NoteView>,
    paths: Seq<Seq<Seq<char>>>,
)
    requires
        strictly_ascending(note_paths(stored)),
        strictly_ascending(note_paths(modified)),
    ensures
        patched_links(link_graph(stored, paths), modified, paths) == link_graph(
            refreshed_notes(stored, Seq::empty(), modified),
            paths,
        ),
{
    let none = view_paths(Seq::<FileView>::empty());
    lemma_notes_without(stored, none);
    let kept = notes_without(stored, none);
    let all = merged_notes(kept, modified);
    law_listed_edges_are_the_graph(modified, paths);
    let patched = patched_links(link_graph(stored, paths), modified, paths);
    let rebuilt = link_graph(all, paths);
    assert forall|edge: (Seq<Seq<char>>, Seq<Seq<char>>)| #[trigger]
        patched.contains(edge) <==> rebuilt.contains(edge) by {
        if rebuilt.contains(edge) {
            let i = choose|i: int| note_edge(all, paths, i, edge);
            assert(all.contains(all[i]));
            law_merge_replaces(kept, modified, all[i]);
            if modified.contains(all[i]) {
                let k = choose|k: int| 0 <= k < modified.len() && modified[k] == all[i];
                assert(note_edge(modified, paths, k, edge));
                assert(link_graph(modified, paths).contains(edge));
            } else {
                assert(stored.contains(all[i]));
                let k = choose|k: int| 0 <= k < stored.len() && stored[k] == all[i];
                assert(note_edge(stored, paths, k, edge));
            }
        }
        if patched.contains(edge) {
            if link_graph(modified, paths).contains(edge) {
                let i = choose|i: int| note_edge(modified, paths, i, edge);
                assert(modified.contains(modified[i]));
                law_merge_replaces(kept, modified, modified[i]);
                let k = choose|k: int| 0 <= k < all.len() && all[k] == modified[i];
                assert(note_edge(all, paths, k, edge));
            } else {
                assert(!listed_edges(modified, paths).to_set().contains(edge));
                let i = choose|i: int| note_edge(stored, paths, i, edge);
                assert(stored.contains(stored[i]));
                assert(!none.contains(stored[i].path));
                assert(kept.contains(stored[i]));
                law_merge_replaces(kept, modified, stored[i]);
                let k = choose|k: int| 0 <= k < all.len() && all[k] == stored[i];
                assert(note_edge(all, paths, k, edge));
            }
        }
    }
    assert(patched =~= rebuilt);
}

/// A refresh of an index gives the links of the notes at hand among the files at
/// hand, whether the links were patched or resolved anew.
pub proof fn law_reconciled_links_are_current(
    plan: PlanView,
    stored: Seq<NoteView>,
    modified: Seq<NoteView>,
)
    requires
        strictly_ascending(view_paths(plan.current)),
        strictly_ascending(view_paths(plan.persisted)),
        strictly_ascending(note_paths(stored)),
        strictly_ascending(note_paths(modified)),
        plan.links == link_graph(stored, view_paths(plan.persisted)),
        paths_unchanged(plan.delta(), plan.persisted),
    ensures
        patched_links(plan.links, modified, view_paths(plan.current)) == link_graph(
            refreshed_notes(stored, plan.delta().deleted, modified),
            view_paths(plan.current),
        ),
{
    law_unchanged_paths_are_the_same(plan.current, plan.persisted);
    assert(plan.delta().deleted =~= Seq::empty());
    law_patching_equals_rebuilding(stored, modified, view_paths(plan.current));
}

} // verus!
