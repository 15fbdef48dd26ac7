//! The links into each file.

use vstd::prelude::*;

use super::delta::file_views;
use super::links::{linked_file, target_of, LinkResolver, LinkTarget};
use super::sort::{
    ascending, law_members_determine_order, law_search_is_complete, law_strict_paths_are_distinct,
    places, search_rows, strictly_ascending, HasPath, SortedByPath,
};
use super::spelling::{
    graph_spelling, lemma_added_spelling, lemma_changed_spelling, no_spelling, lemma_pairs_within, note_texts,
    pair_spelling, pairs_within, spelling_of, writes_source, writes_target, Spelling,
};
use crate::file::FileBase;
use crate::note::document::{Note, NoteView};
use crate::note::parser::outlink_views;
use crate::path::{
    lemma_path_lt_total, lemma_path_lt_transitive, path_lt, path_texts, FilePath,
};
use crate::query::record::file_paths;

verus! {

/// One target with the notes that link to it.
#[derive(Debug)]
pub struct LinkEntry {
    /// The file linked to.
    pub target: FilePath,
    /// The notes that link there.
    pub sources: Vec<FilePath>,
}

impl HasPath for LinkEntry {
    open spec fn place(&self) -> Seq<Seq<char>> {
        self.target@
    }

    fn row_path(&self) -> (path: &FilePath) {
        &self.target
    }
}

/// The contents of each entry.
pub open spec fn link_views(entries: Seq<LinkEntry>) -> Seq<
    (Seq<Seq<char>>, Seq<Seq<Seq<char>>>),
> {
    Seq::new(entries.len(), |i: int| (entries[i].target@, file_paths(entries[i].sources@)))
}

/// The targets of entries.
pub open spec fn targets_of(entries: Seq<(Seq<Seq<char>>, Seq<Seq<Seq<char>>>)>) -> Seq<
    Seq<Seq<char>>,
> {
    Seq::new(entries.len(), |i: int| entries[i].0)
}

/// Targets and the sources of each ascend strictly, and each target has a
/// source.
pub open spec fn canonical(entries: Seq<(Seq<Seq<char>>, Seq<Seq<Seq<char>>>)>) -> bool {
    &&& strictly_ascending(targets_of(entries))
    &&& forall|i: int|
        0 <= i < entries.len() ==> (#[trigger] entries[i]).1.len() > 0 && strictly_ascending(
            entries[i].1,
        )
}

/// Entry `i` says that the second path of `edge` links to the first.
pub open spec fn says(
    entries: Seq<(Seq<Seq<char>>, Seq<Seq<Seq<char>>>)>,
    edge: (Seq<Seq<char>>, Seq<Seq<char>>),
    i: int,
) -> bool {
    0 <= i < entries.len() && entries[i].0 == edge.0 && entries[i].1.contains(edge.1)
}

/// All links that entries say, each as target and source.
pub open spec fn edges_of(entries: Seq<(Seq<Seq<char>>, Seq<Seq<Seq<char>>>)>) -> Set<
    (Seq<Seq<char>>, Seq<Seq<char>>),
> {
    Set::new(|edge: (Seq<Seq<char>>, Seq<Seq<char>>)| exists|i: int| says(entries, edge, i))
}

/// `sources` are, in order, all that link to `target`.
pub open spec fn lists_sources(
    sources: Seq<Seq<Seq<char>>>,
    edges: Set<(Seq<Seq<char>>, Seq<Seq<char>>)>,
    target: Seq<Seq<char>>,
) -> bool {
    &&& strictly_ascending(sources)
    &&& forall|source: Seq<Seq<char>>| #[trigger]
        sources.contains(source) <==> edges.contains((target, source))
}

/// The files that something links to.
pub open spec fn linked_targets(edges: Set<(Seq<Seq<char>>, Seq<Seq<char>>)>) -> Set<
    Seq<Seq<char>>,
> {
    Set::new(
        |target: Seq<Seq<char>>|
            exists|source: Seq<Seq<char>>| #[trigger] edges.contains((target, source)),
    )
}

/// Link `j` of the note leads to `target`.
pub open spec fn link_leads(
    note: NoteView,
    paths: Seq<Seq<Seq<char>>>,
    j: int,
    target: Seq<Seq<char>>,
) -> bool {
    &&& 0 <= j < note.outlinks.len()
    &&& linked_file(paths, note.path, target_of(note.outlinks[j].target)) == Some(target)
}

/// The note links to `target`.
pub open spec fn links_to(
    note: NoteView,
    paths: Seq<Seq<Seq<char>>>,
    target: Seq<Seq<char>>,
) -> bool {
    exists|j: int| link_leads(note, paths, j, target)
}

/// Note `i` is the source of `edge` and links to its target.
pub open spec fn note_edge(
    notes: Seq<NoteView>,
    paths: Seq<Seq<Seq<char>>>,
    i: int,
    edge: (Seq<Seq<char>>, Seq<Seq<char>>),
) -> bool {
    0 <= i < notes.len() && notes[i].path == edge.1 && links_to(notes[i], paths, edge.0)
}

/// All links between notes and files.
pub open spec fn link_graph(notes: Seq<NoteView>, paths: Seq<Seq<Seq<char>>>) -> Set<
    (Seq<Seq<char>>, Seq<Seq<char>>),
> {
    Set::new(
        |edge: (Seq<Seq<char>>, Seq<Seq<char>>)| exists|i: int| note_edge(notes, paths, i, edge),
    )
}

/// The contents of each note.
pub open spec fn note_views(notes: Seq<Note>) -> Seq<NoteView> {
    Seq::new(notes.len(), |i: int| notes[i]@)
}

/// The contents of each note found.
pub open spec fn note_ref_views(notes: Seq<&Note>) -> Seq<NoteView> {
    Seq::new(notes.len(), |i: int| notes[i]@)
}

/// Target and source of each pair.
pub open spec fn pair_views(pairs: Seq<(FilePath, FilePath)>) -> Seq<
    (Seq<Seq<char>>, Seq<Seq<char>>),
> {
    Seq::new(pairs.len(), |i: int| (pairs[i].0@, pairs[i].1@))
}

proof fn lemma_insert_strictly(paths: Seq<Seq<Seq<char>>>, path: Seq<Seq<char>>, at: int)
    requires
        strictly_ascending(paths),
        0 <= at <= paths.len(),
        forall|i: int| 0 <= i < at ==> path_lt(#[trigger] paths[i], path),
        forall|i: int| at <= i < paths.len() ==> path_lt(path, #[trigger] paths[i]),
    ensures
        strictly_ascending(paths.insert(at, path)),
        forall|p: Seq<Seq<char>>| #[trigger]
            paths.insert(at, path).contains(p) <==> paths.contains(p) || p == path,
{
    let all = paths.insert(at, path);
    assert forall|i: int, j: int| 0 <= i < j < all.len() implies path_lt(
        #[trigger] all[i],
        #[trigger] all[j],
    ) by {
        if j < at {
            assert(all[i] == paths[i] && all[j] == paths[j]);
        } else if j == at {
            assert(all[i] == paths[i]);
        } else {
            assert(all[j] == paths[j - 1]);
            if i < at {
                assert(all[i] == paths[i]);
            } else if i > at {
                assert(all[i] == paths[i - 1]);
            }
        }
    }
    assert forall|p: Seq<Seq<char>>| #[trigger] all.contains(p) <==> paths.contains(p) || p
        == path by {
        if all.contains(p) {
            let i = choose|i: int| 0 <= i < all.len() && all[i] == p;
            if i < at {
                assert(paths[i] == p);
            } else if i > at {
                assert(paths[i - 1] == p);
            }
        }
        if paths.contains(p) {
            let i = choose|i: int| 0 <= i < paths.len() && paths[i] == p;
            if i < at {
                assert(all[i] == p);
            } else {
                assert(all[i + 1] == p);
            }
        }
        assert(all[at] == path);
    }
}

/// Adds a path to a strictly ascending list, unless it is there.
fn add_path(paths: &mut Vec<FilePath>, path: FilePath)
    requires
        strictly_ascending(file_paths(old(paths)@)),
    ensures
        strictly_ascending(file_paths(final(paths)@)),
        final(paths)@.len() > 0,
        forall|p: Seq<Seq<char>>| #[trigger]
            file_paths(final(paths)@).contains(p) <==> file_paths(old(paths)@).contains(p) || p
                == path@,
        forall|i: int|
            0 <= i < final(paths)@.len() ==> (#[trigger] final(paths)@[i]) == path || old(
                paths,
            )@.contains(final(paths)@[i]),
{
    let ghost own = paths@;
    let ghost before = file_paths(paths@);
    proof {
        law_strict_paths_are_distinct(before);
        assert(places(paths@) =~= before);
    }
    match search_rows(paths, &path) {
        Ok(at) => {
            assert(before[at as int] == path@);
        },
        Err(at) => {
            proof {
                assert forall|i: int| 0 <= i < at implies path_lt(#[trigger] before[i], path@) by {
                    assert(paths@[i].place() == before[i]);
                }
                assert forall|i: int| at <= i < before.len() implies path_lt(
                    path@,
                    #[trigger] before[i],
                ) by {
                    assert(paths@[i].place() == before[i]);
                }
                lemma_insert_strictly(before, path@, at as int);
            }
            let ghost added = path;
            paths.insert(at, path);
            proof {
                assert(file_paths(paths@) =~= before.insert(at as int, added@));
                assert forall|i: int| 0 <= i < paths@.len() implies (#[trigger] paths@[i]) == added
                    || own.contains(paths@[i]) by {
                    if i < at {
                        assert(paths@[i] == own[i]);
                    } else if i > at {
                        assert(paths@[i] == own[i - 1]);
                    }
                }
            }
        },
    }
}

proof fn lemma_canonical_places(entries: Seq<LinkEntry>)
    requires
        canonical(link_views(entries)),
    ensures
        ascending(places(entries)),
        places(entries) == targets_of(link_views(entries)),
{
    assert(places(entries) =~= targets_of(link_views(entries)));
    law_strict_paths_are_distinct(places(entries));
}

proof fn lemma_changed_entry(
    before: Seq<(Seq<Seq<char>>, Seq<Seq<Seq<char>>>)>,
    at: int,
    sources: Seq<Seq<Seq<char>>>,
    source: Seq<Seq<char>>,
)
    requires
        canonical(before),
        0 <= at < before.len(),
        sources.len() > 0,
        strictly_ascending(sources),
        forall|p: Seq<Seq<char>>| #[trigger]
            sources.contains(p) <==> before[at].1.contains(p) || p == source,
    ensures
        canonical(before.update(at, (before[at].0, sources))),
        edges_of(before.update(at, (before[at].0, sources))) == edges_of(before).insert(
            (before[at].0, source),
        ),
{
    let target = before[at].0;
    let after = before.update(at, (target, sources));
    assert(targets_of(after) =~= targets_of(before));
    let grown = edges_of(before).insert((target, source));
    assert forall|edge: (Seq<Seq<char>>, Seq<Seq<char>>)| #[trigger]
        edges_of(after).contains(edge) <==> grown.contains(edge) by {
        if edges_of(after).contains(edge) {
            let i = choose|i: int| says(after, edge, i);
            if i != at {
                assert(says(before, edge, i));
            } else if edge.1 != source {
                assert(before[at].1.contains(edge.1));
                assert(says(before, edge, at));
            }
        }
        if edges_of(before).contains(edge) {
            let i = choose|i: int| says(before, edge, i);
            if i == at {
                assert(sources.contains(edge.1));
            }
            assert(says(after, edge, i));
        }
        if edge == (target, source) {
            assert(sources.contains(source));
            assert(says(after, edge, at));
        }
    }
    assert(edges_of(after) =~= grown);
}

proof fn lemma_new_entry(
    before: Seq<(Seq<Seq<char>>, Seq<Seq<Seq<char>>>)>,
    at: int,
    target: Seq<Seq<char>>,
    source: Seq<Seq<char>>,
)
    requires
        canonical(before),
        0 <= at <= before.len(),
        forall|i: int| 0 <= i < at ==> path_lt((#[trigger] before[i]).0, target),
        forall|i: int| at <= i < before.len() ==> path_lt(target, (#[trigger] before[i]).0),
    ensures
        canonical(before.insert(at, (target, seq![source]))),
        edges_of(before.insert(at, (target, seq![source]))) == edges_of(before).insert(
            (target, source),
        ),
{
    let after = before.insert(at, (target, seq![source]));
    let paths = targets_of(before);
    assert(targets_of(after) =~= paths.insert(at, target));
    assert forall|i: int| 0 <= i < at implies path_lt(#[trigger] paths[i], target) by {
        assert(before[i].0 == paths[i]);
    }
    assert forall|i: int| at <= i < paths.len() implies path_lt(target, #[trigger] paths[i]) by {
        assert(before[i].0 == paths[i]);
    }
    lemma_insert_strictly(paths, target, at);
    assert forall|i: int| 0 <= i < after.len() implies (#[trigger] after[i]).1.len() > 0
        && strictly_ascending(after[i].1) by {
        if i < at {
            assert(after[i] == before[i]);
        } else if i > at {
            assert(after[i] == before[i - 1]);
        }
    }
    let grown = edges_of(before).insert((target, source));
    assert forall|edge: (Seq<Seq<char>>, Seq<Seq<char>>)| #[trigger]
        edges_of(after).contains(edge) <==> grown.contains(edge) by {
        if edges_of(after).contains(edge) {
            let i = choose|i: int| says(after, edge, i);
            if i < at {
                assert(says(before, edge, i));
            } else if i > at {
                assert(after[i] == before[i - 1]);
                assert(says(before, edge, i - 1));
            }
        }
        if edges_of(before).contains(edge) {
            let i = choose|i: int| says(before, edge, i);
            if i < at {
                assert(says(after, edge, i));
            } else {
                assert(after[i + 1] == before[i]);
                assert(says(after, edge, i + 1));
            }
        }
        if edge == (target, source) {
            assert(seq![source][0] == source);
            assert(says(after, edge, at));
        }
    }
    assert(edges_of(after) =~= grown);
}

/// Adds a link to canonical entries.
fn add_edge(entries: &mut Vec<LinkEntry>, target: FilePath, source: FilePath)
    requires
        canonical(link_views(old(entries)@)),
    ensures
        canonical(link_views(final(entries)@)),
        edges_of(link_views(final(entries)@)) == edges_of(link_views(old(entries)@)).insert(
            (target@, source@),
        ),
        spelling_of(final(entries)@).within(
            spelling_of(old(entries)@).and_link(target.spec_text(), source.spec_text()),
        ),
{
    let ghost rows = entries@;
    let ghost before = link_views(entries@);
    let ghost edge = (target@, source@);
    proof {
        lemma_canonical_places(entries@);
    }
    match search_rows(entries, &target) {
        Ok(at) => {
            assert(before[at as int].0 == target@);
            let mut entry = entries.remove(at);
            assert(file_paths(entry.sources@) == before[at as int].1);
            add_path(&mut entry.sources, source);
            let ghost sources = file_paths(entry.sources@);
            let ghost changed = entry;
            entries.insert(at, entry);
            proof {
                assert(entries@ =~= rows.update(at as int, changed));
                lemma_changed_spelling(rows, at as int, changed, target, source);
                lemma_changed_entry(before, at as int, sources, edge.1);
                assert(link_views(entries@) =~= before.update(
                    at as int,
                    (before[at as int].0, sources),
                ));
            }
        },
        Err(at) => {
            let mut sources: Vec<FilePath> = Vec::new();
            sources.push(source);
            assert(file_paths(sources@) =~= seq![edge.1]);
            proof {
                assert forall|i: int| 0 <= i < at implies path_lt(
                    (#[trigger] before[i]).0,
                    edge.0,
                ) by {
                    assert(rows[i].place() == before[i].0);
                }
                assert forall|i: int| at <= i < before.len() implies path_lt(
                    edge.0,
                    (#[trigger] before[i]).0,
                ) by {
                    assert(rows[i].place() == before[i].0);
                }
                lemma_new_entry(before, at as int, edge.0, edge.1);
            }
            let entry = LinkEntry { target, sources };
            proof {
                lemma_added_spelling(rows, at as int, entry);
            }
            entries.insert(at, entry);
            assert(link_views(entries@) =~= before.insert(
                at as int,
                (edge.0, seq![edge.1]),
            ));
        },
    }
}

/// The links into each file of a workspace.
#[derive(Debug)]
pub struct InlinkMap {
    entries: Vec<LinkEntry>,
}

impl View for InlinkMap {
    type V = Set<(Seq<Seq<char>>, Seq<Seq<char>>)>;

    closed spec fn view(&self) -> Set<(Seq<Seq<char>>, Seq<Seq<char>>)> {
        edges_of(link_views(self.entries@))
    }
}

proof fn lemma_no_edges(entries: Seq<LinkEntry>)
    requires
        entries.len() == 0,
    ensures
        canonical(link_views(entries)),
        edges_of(link_views(entries)) == Set::<(Seq<Seq<char>>, Seq<Seq<char>>)>::empty(),
        spelling_of(entries) == no_spelling(),
{
    assert(spelling_of(entries).targets =~= Set::empty());
    assert(spelling_of(entries).sources =~= Set::empty());
    assert(edges_of(link_views(entries)) =~= Set::empty());
}

impl Default for InlinkMap {
    fn default() -> (map: Self)
        ensures
            map@ == Set::<(Seq<Seq<char>>, Seq<Seq<char>>)>::empty(),
            map.spelling() == no_spelling(),
    {
        let entries: Vec<LinkEntry> = Vec::new();
        proof {
            lemma_no_edges(entries@);
        }
        InlinkMap { entries }
    }
}

impl InlinkMap {
    /// How the targets and sources are written.
    pub closed spec fn spelling(self) -> Spelling {
        spelling_of(self.entries@)
    }

    #[verifier::type_invariant]
    spec fn is_canonical(self) -> bool {
        canonical(link_views(self.entries@))
    }

    /// The links of `notes` to `files`. Several links of one note to one file
    /// count once.
    pub fn new(notes: &Vec<Note>, files: &SortedByPath<FileBase>) -> (map: Self)
        ensures
            map@ == link_graph(note_views(notes@), places(files@)),
            map.spelling().within(graph_spelling(note_views(notes@), file_views(files@))),
    {
        let mut refs: Vec<&Note> = Vec::new();
        let mut i: usize = 0;
        while i < notes.len()
            invariant
                i <= notes@.len(),
                refs@.len() == i,
                forall|k: int| 0 <= k < i ==> (#[trigger] refs@[k])@ == notes@[k]@,
            decreases notes@.len() - i,
        {
            refs.push(&notes[i]);
            i = i + 1;
        }
        assert(note_ref_views(refs@) =~= note_views(notes@));
        InlinkMap::of_notes(&refs, files)
    }

    /// The links of `notes` to `files`. Several links of one note to one file
    /// count once.
    pub fn of_notes(notes: &Vec<&Note>, files: &SortedByPath<FileBase>) -> (map: Self)
        ensures
            map@ == link_graph(note_ref_views(notes@), places(files@)),
            map.spelling().within(graph_spelling(note_ref_views(notes@), file_views(files@))),
    {
        let ghost views = note_ref_views(notes@);
        let ghost texts = graph_spelling(views, file_views(files@));
        let ghost paths = places(files@);
        let resolver = LinkResolver::new(files);
        let mut entries: Vec<LinkEntry> = Vec::new();
        proof {
            lemma_no_edges(entries@);
            assert(link_graph(views.take(0), paths) =~= Set::empty());
        }
        let mut i: usize = 0;
        while i < notes.len()
            invariant
                i <= notes@.len(),
                views == note_ref_views(notes@),
                paths == resolver.paths(),
                canonical(link_views(entries@)),
                edges_of(link_views(entries@)) == link_graph(views.take(i as int), paths),
                texts.targets == resolver.texts().to_set(),
                texts.sources == note_texts(views).to_set(),
                spelling_of(entries@).within(texts),
            decreases notes@.len() - i,
        {
            let ghost before = edges_of(link_views(entries@));
            let targets = resolve_note(&resolver, notes[i]);
            let ghost found = file_paths(targets@);
            let ghost from = notes@[i as int]@.path;
            assert(note_texts(views)[i as int] == notes@[i as int]@.path_text);
            assert(note_texts(views).contains(notes@[i as int]@.path_text));
            let mut j: usize = 0;
            while j < targets.len()
                invariant
                    j <= targets@.len(),
                    i < notes@.len(),
                    found == file_paths(targets@),
                    from == notes@[i as int]@.path,
                    texts.targets == resolver.texts().to_set(),
                    texts.sources.contains(notes@[i as int]@.path_text),
                    forall|k: int|
                        0 <= k < targets@.len() ==> resolver.texts().contains(
                            (#[trigger] targets@[k]).spec_text(),
                        ),
                    spelling_of(entries@).within(texts),
                    canonical(link_views(entries@)),
                    forall|edge: (Seq<Seq<char>>, Seq<Seq<char>>)| #[trigger]
                        edges_of(link_views(entries@)).contains(edge) <==> before.contains(edge)
                            || (edge.1 == from && found.take(j as int).contains(edge.0)),
                decreases targets@.len() - j,
            {
                add_edge(&mut entries, targets[j].copy(), notes[i].path().copy());
                proof {
                    lemma_take_contains(found, j as int);
                }
                j = j + 1;
            }
            proof {
                assert(found.take(j as int) =~= found);
                lemma_graph_step(views, paths, i as int, before, found, edges_of(
                    link_views(entries@),
                ));
            }
            i = i + 1;
        }
        assert(views.take(i as int) =~= views);
        InlinkMap { entries }
    }

    /// A map of the links that `entries` say.
    pub fn from_raw(entries: Vec<LinkEntry>) -> (map: Self)
        ensures
            map@ == edges_of(link_views(entries@)),
            map.spelling().within(spelling_of(entries@)),
    {
        let ghost views = link_views(entries@);
        let none: Vec<FilePath> = Vec::new();
        let rows = kept_edges(&entries, &none);
        proof {
            assert(file_paths(none@) =~= Seq::empty());
            assert(edges_of(link_views(rows@)) =~= edges_of(views));
        }
        InlinkMap { entries: rows }
    }

    /// The notes that link to `target`, in order.
    pub fn inlinks_of(&self, target: &FilePath) -> (sources: &[FilePath])
        ensures
            lists_sources(file_paths(sources@), self@, target@),
            path_texts(sources@).to_set().subset_of(self.spelling().sources),
    {
        proof {
            use_type_invariant(self);
            lemma_canonical_places(self.entries@);
        }
        let ghost views = link_views(self.entries@);
        match search_rows(&self.entries, target) {
            Ok(at) => {
                proof {
                    assert(views[at as int].0 == target@);
                    lemma_sources_of(views, at as int);
                    let texts = path_texts(self.entries@[at as int].sources@);
                    assert forall|text: Seq<char>| texts.to_set().contains(text) implies
                        self.spelling().sources.contains(text) by {
                        let j = choose|j: int| 0 <= j < texts.len() && texts[j] == text;
                        assert(writes_source(self.entries@, text, at as int, j));
                    }
                }
                self.entries[at].sources.as_slice()
            },
            Err(at) => {
                proof {
                    law_search_is_complete(self.entries@, target@, at as int);
                    assert forall|source: Seq<Seq<char>>| !#[trigger] self@.contains(
                        (target@, source),
                    ) by {
                        if self@.contains((target@, source)) {
                            let i = choose|i: int| says(views, (target@, source), i);
                            assert(places(self.entries@)[i] == target@);
                        }
                    }
                }
                &[]
            },
        }
    }

    /// All targets with their sources, in order.
    pub fn iter(&self) -> (entries: &Vec<LinkEntry>)
        ensures
            canonical(link_views(entries@)),
            edges_of(link_views(entries@)) == self@,
            spelling_of(entries@) == self.spelling(),
    {
        proof {
            use_type_invariant(self);
        }
        &self.entries
    }

    /// All targets with their sources, in order, by value.
    pub fn into_entries(self) -> (entries: Vec<LinkEntry>)
        ensures
            canonical(link_views(entries@)),
            edges_of(link_views(entries@)) == self@,
            spelling_of(entries@) == self.spelling(),
    {
        proof {
            use_type_invariant(&self);
        }
        self.entries
    }

    /// Whether something links to `target`.
    pub fn has_target(&self, target: &FilePath) -> (found: bool)
        ensures
            found == linked_targets(self@).contains(target@),
    {
        let sources = self.inlinks_of(target);
        proof {
            let views = file_paths(sources@);
            if sources@.len() > 0 {
                assert(views.contains(views[0]));
                assert(self@.contains((target@, views[0])));
            } else if linked_targets(self@).contains(target@) {
                let source = choose|source: Seq<Seq<char>>| #[trigger]
                    self@.contains((target@, source));
                assert(views.contains(source));
            }
        }
        sources.len() > 0
    }

    /// Whether there is no link.
    pub fn is_empty(&self) -> (empty: bool)
        ensures
            empty == (self@ == Set::<(Seq<Seq<char>>, Seq<Seq<char>>)>::empty()),
    {
        proof {
            use_type_invariant(self);
            let views = link_views(self.entries@);
            if self.entries@.len() > 0 {
                assert(views[0].1.len() > 0);
                assert(says(views, (views[0].0, views[0].1[0]), 0));
                assert(self@.contains((views[0].0, views[0].1[0])));
            } else {
                lemma_no_edges(self.entries@);
            }
        }
        self.entries.len() == 0
    }

    /// Number of files that something links to.
    pub fn len(&self) -> (len: usize)
        ensures
            linked_targets(self@).finite(),
            len == linked_targets(self@).len(),
    {
        proof {
            use_type_invariant(self);
            let views = link_views(self.entries@);
            let targets = targets_of(views);
            law_strict_paths_are_distinct(targets);
            targets.unique_seq_to_set();
            assert forall|target: Seq<Seq<char>>| #[trigger] targets.to_set().contains(target)
                <==> linked_targets(self@).contains(target) by {
                lemma_targets(views, target);
            }
            assert(targets.to_set() =~= linked_targets(self@));
            vstd::seq_lib::seq_to_set_is_finite(targets);
        }
        self.entries.len()
    }

    /// The links without those of `sources`.
    pub fn without_sources(&self, sources: &Vec<FilePath>) -> (map: Self)
        ensures
            map@ == self@.filter(
                |edge: (Seq<Seq<char>>, Seq<Seq<char>>)|
                    !file_paths(sources@).contains(edge.1),
            ),
            map.spelling().within(self.spelling()),
    {
        let entries = kept_edges(&self.entries, sources);
        let map = InlinkMap { entries };
        assert(map@ =~= self@.filter(
            |edge: (Seq<Seq<char>>, Seq<Seq<char>>)| !file_paths(sources@).contains(edge.1),
        ));
        map
    }

    /// The links with those of `edges`, each a target and a source.
    pub fn with_edges(self, edges: Vec<(FilePath, FilePath)>) -> (map: Self)
        ensures
            map@ == self@.union(pair_views(edges@).to_set()),
            map.spelling().within(self.spelling().or(pair_spelling(edges@))),
    {
        let ghost texts = self.spelling().or(pair_spelling(edges@));
        proof {
            lemma_pairs_within(edges@, pair_spelling(edges@));
        }
        let ghost start = self@;
        let ghost pairs = pair_views(edges@);
        let mut entries = self.into_entries();
        let mut i: usize = 0;
        while i < edges.len()
            invariant
                i <= edges@.len(),
                pairs == pair_views(edges@),
                canonical(link_views(entries@)),
                forall|edge: (Seq<Seq<char>>, Seq<Seq<char>>)| #[trigger]
                    edges_of(link_views(entries@)).contains(edge) <==> start.contains(edge)
                        || pairs.take(i as int).contains(edge),
                pairs_within(edges@, texts),
                spelling_of(entries@).within(texts),
            decreases edges@.len() - i,
        {
            add_edge(&mut entries, edges[i].0.copy(), edges[i].1.copy());
            proof {
                lemma_take_contains(pairs, i as int);
            }
            i = i + 1;
        }
        assert(pairs.take(i as int) =~= pairs);
        let map = InlinkMap { entries };
        assert(map@ =~= start.union(pairs.to_set()));
        map
    }
}

proof fn lemma_take_contains<A>(items: Seq<A>, i: int)
    requires
        0 <= i < items.len(),
    ensures
        forall|x: A| #[trigger]
            items.take(i + 1).contains(x) <==> items.take(i).contains(x) || x == items[i],
{
    assert forall|x: A| #[trigger] items.take(i + 1).contains(x) <==> items.take(i).contains(x)
        || x == items[i] by {
        let next = items.take(i + 1);
        if next.contains(x) {
            let k = choose|k: int| 0 <= k < next.len() && next[k] == x;
            if k < i {
                assert(items.take(i)[k] == x);
            }
        }
        if items.take(i).contains(x) {
            let k = choose|k: int| 0 <= k < items.take(i).len() && items.take(i)[k] == x;
            assert(next[k] == x);
        }
        assert(next[i] == items[i]);
    }
}

proof fn lemma_graph_step(
    views: Seq<NoteView>,
    paths: Seq<Seq<Seq<char>>>,
    i: int,
    before: Set<(Seq<Seq<char>>, Seq<Seq<char>>)>,
    found: Seq<Seq<Seq<char>>>,
    after: Set<(Seq<Seq<char>>, Seq<Seq<char>>)>,
)
    requires
        0 <= i < views.len(),
        before == link_graph(views.take(i), paths),
        forall|target: Seq<Seq<char>>| #[trigger]
            found.contains(target) <==> links_to(views[i], paths, target),
        forall|edge: (Seq<Seq<char>>, Seq<Seq<char>>)| #[trigger]
            after.contains(edge) <==> before.contains(edge) || (edge.1 == views[i].path
                && found.contains(edge.0)),
    ensures
        after == link_graph(views.take(i + 1), paths),
{
    let next = views.take(i + 1);
    let prior = views.take(i);
    assert forall|edge: (Seq<Seq<char>>, Seq<Seq<char>>)| #[trigger]
        after.contains(edge) <==> link_graph(next, paths).contains(edge) by {
        if after.contains(edge) {
            if before.contains(edge) {
                let k = choose|k: int| note_edge(prior, paths, k, edge);
                assert(prior[k] == next[k]);
                assert(note_edge(next, paths, k, edge));
            } else {
                assert(note_edge(next, paths, i, edge));
            }
        }
        if link_graph(next, paths).contains(edge) {
            let k = choose|k: int| note_edge(next, paths, k, edge);
            if k < i {
                assert(prior[k] == next[k]);
                assert(note_edge(prior, paths, k, edge));
                assert(before.contains(edge));
            } else {
                assert(found.contains(edge.0));
            }
        }
    }
    assert(after =~= link_graph(next, paths));
}

/// The sources of an entry are all that link to its target.
pub proof fn lemma_sources_of(views: Seq<(Seq<Seq<char>>, Seq<Seq<Seq<char>>>)>, at: int)
    requires
        canonical(views),
        0 <= at < views.len(),
    ensures
        lists_sources(views[at].1, edges_of(views), views[at].0),
{
    let target = views[at].0;
    assert forall|source: Seq<Seq<char>>| #[trigger]
        views[at].1.contains(source) <==> edges_of(views).contains((target, source)) by {
        if views[at].1.contains(source) {
            assert(says(views, (target, source), at));
        }
        if edges_of(views).contains((target, source)) {
            let i = choose|i: int| says(views, (target, source), i);
            if i != at {
                law_strict_paths_are_distinct(targets_of(views));
                assert(targets_of(views)[i] == targets_of(views)[at]);
            }
        }
    }
}

/// The targets of canonical entries are the files that something links to.
pub proof fn lemma_targets(
    views: Seq<(Seq<Seq<char>>, Seq<Seq<Seq<char>>>)>,
    target: Seq<Seq<char>>,
)
    requires
        canonical(views),
    ensures
        targets_of(views).contains(target) <==> linked_targets(edges_of(views)).contains(target),
{
    let edges = edges_of(views);
    if targets_of(views).contains(target) {
        let i = choose|i: int| 0 <= i < targets_of(views).len() && targets_of(views)[i] == target;
        assert(views[i].1.len() > 0);
        assert(says(views, (target, views[i].1[0]), i));
        assert(edges.contains((target, views[i].1[0])));
    }
    if linked_targets(edges).contains(target) {
        let source = choose|source: Seq<Seq<char>>| #[trigger] edges.contains((target, source));
        let i = choose|i: int| says(views, (target, source), i);
        assert(targets_of(views)[i] == target);
    }
}

fn has_path_in(paths: &Vec<FilePath>, path: &FilePath) -> (found: bool)
    ensures
        found == file_paths(paths@).contains(path@),
{
    let mut i: usize = 0;
    while i < paths.len()
        invariant
            i <= paths@.len(),
            forall|j: int| 0 <= j < i ==> (#[trigger] file_paths(paths@)[j]) != path@,
        decreases paths@.len() - i,
    {
        if paths[i].same(path) {
            assert(file_paths(paths@)[i as int] == path@);
            return true;
        }
        i = i + 1;
    }
    false
}

/// Entry `i` says `edge` with one of its first `n` sources.
spec fn says_early(
    entries: Seq<(Seq<Seq<char>>, Seq<Seq<Seq<char>>>)>,
    edge: (Seq<Seq<char>>, Seq<Seq<char>>),
    i: int,
    n: int,
) -> bool {
    entries[i].0 == edge.0 && entries[i].1.take(n).contains(edge.1)
}

/// Canonical entries for the links whose source is not in `dropped`.
fn kept_edges(entries: &Vec<LinkEntry>, dropped: &Vec<FilePath>) -> (kept: Vec<LinkEntry>)
    ensures
        canonical(link_views(kept@)),
        forall|edge: (Seq<Seq<char>>, Seq<Seq<char>>)| #[trigger]
            edges_of(link_views(kept@)).contains(edge) <==> edges_of(
                link_views(entries@),
            ).contains(edge) && !file_paths(dropped@).contains(edge.1),
        spelling_of(kept@).within(spelling_of(entries@)),
{
    let ghost views = link_views(entries@);
    let ghost gone = file_paths(dropped@);
    let mut kept: Vec<LinkEntry> = Vec::new();
    proof {
        lemma_no_edges(kept@);
        assert(views.take(0) =~= Seq::empty());
    }
    let mut i: usize = 0;
    while i < entries.len()
        invariant
            i <= entries@.len(),
            views == link_views(entries@),
            gone == file_paths(dropped@),
            canonical(link_views(kept@)),
            forall|edge: (Seq<Seq<char>>, Seq<Seq<char>>)| #[trigger]
                edges_of(link_views(kept@)).contains(edge) <==> edges_of(
                    views.take(i as int),
                ).contains(edge) && !gone.contains(edge.1),
            spelling_of(kept@).within(spelling_of(entries@)),
        decreases entries@.len() - i,
    {
        let ghost before = views.take(i as int);
        let ghost sources = views[i as int].1;
        let entry = &entries[i];
        assert(sources.take(0) =~= Seq::empty());
        let mut j: usize = 0;
        while j < entry.sources.len()
            invariant
                j <= entry.sources@.len(),
                i < entries@.len(),
                views == link_views(entries@),
                entry == entries@[i as int],
                sources == file_paths(entry.sources@),
                sources == views[i as int].1,
                gone == file_paths(dropped@),
                canonical(link_views(kept@)),
                forall|edge: (Seq<Seq<char>>, Seq<Seq<char>>)| #[trigger]
                    edges_of(link_views(kept@)).contains(edge) <==> (edges_of(before).contains(
                        edge,
                    ) || says_early(views, edge, i as int, j as int)) && !gone.contains(edge.1),
                spelling_of(kept@).within(spelling_of(entries@)),
            decreases entry.sources@.len() - j,
        {
            proof {
                lemma_take_contains(sources, j as int);
                assert(writes_target(entries@, entry.target.spec_text(), i as int));
                assert(writes_source(
                    entries@,
                    entry.sources@[j as int].spec_text(),
                    i as int,
                    j as int,
                ));
            }
            if !has_path_in(dropped, &entry.sources[j]) {
                add_edge(&mut kept, entry.target.copy(), entry.sources[j].copy());
            }
            j = j + 1;
        }
        proof {
            assert(sources.take(j as int) =~= sources);
            let next = views.take(i + 1);
            assert forall|edge: (Seq<Seq<char>>, Seq<Seq<char>>)| #[trigger]
                edges_of(next).contains(edge) <==> edges_of(before).contains(edge) || says_early(
                    views,
                    edge,
                    i as int,
                    j as int,
                ) by {
                if edges_of(next).contains(edge) {
                    let k = choose|k: int| says(next, edge, k);
                    if k < i {
                        assert(before[k] == next[k]);
                        assert(says(before, edge, k));
                    }
                }
                if edges_of(before).contains(edge) {
                    let k = choose|k: int| says(before, edge, k);
                    assert(before[k] == next[k]);
                    assert(says(next, edge, k));
                }
                if says_early(views, edge, i as int, j as int) {
                    assert(says(next, edge, i as int));
                }
            }
        }
        i = i + 1;
    }
    assert(views.take(i as int) =~= views);
    kept
}

/// The files that a note links to, in order, each once.
pub fn resolve_note(resolver: &LinkResolver, note: &Note) -> (targets: Vec<FilePath>)
    ensures
        lists_links(file_paths(targets@), note@, resolver.paths()),
        forall|k: int|
            0 <= k < targets@.len() ==> resolver.texts().contains(
                (#[trigger] targets@[k]).spec_text(),
            ),
{
    let outlinks = note.outlinks();
    let ghost paths = resolver.paths();
    let mut targets: Vec<FilePath> = Vec::new();
    let mut i: usize = 0;
    while i < outlinks.len()
        invariant
            i <= outlinks@.len(),
            outlink_views(outlinks@) == note@.outlinks,
            paths == resolver.paths(),
            strictly_ascending(file_paths(targets@)),
            forall|target: Seq<Seq<char>>| #[trigger]
                file_paths(targets@).contains(target) <==> exists|j: int|
                    0 <= j < i && link_leads(note@, paths, j, target),
            forall|k: int|
                0 <= k < targets@.len() ==> resolver.texts().contains(
                    (#[trigger] targets@[k]).spec_text(),
                ),
        decreases outlinks@.len() - i,
    {
        let ghost before = file_paths(targets@);
        assert(note@.outlinks[i as int] == outlinks@[i as int]@);
        let target = LinkTarget::parse(outlinks[i].target());
        match resolver.resolve(note.path(), &target) {
            Some(path) => {
                let ghost added = path@;
                let ghost own = path;
                let ghost earlier = targets@;
                assert(link_leads(note@, paths, i as int, added));
                add_path(&mut targets, path);
                proof {
                    assert forall|k: int| 0 <= k < targets@.len() implies resolver.texts().contains(
                        (#[trigger] targets@[k]).spec_text(),
                    ) by {
                        if targets@[k] != own {
                            let m = choose|m: int|
                                0 <= m < earlier.len() && earlier[m] == targets@[k];
                            assert(resolver.texts().contains(earlier[m].spec_text()));
                        }
                    }
                    assert forall|t: Seq<Seq<char>>| #[trigger]
                        file_paths(targets@).contains(t) <==> exists|j: int|
                        0 <= j < i + 1 && link_leads(note@, paths, j, t) by {
                        if file_paths(targets@).contains(t) {
                            if t != added {
                                assert(before.contains(t));
                            }
                        }
                        if exists|j: int| 0 <= j < i + 1 && link_leads(note@, paths, j, t) {
                            let j = choose|j: int|
                                0 <= j < i + 1 && link_leads(note@, paths, j, t);
                            if j < i {
                                assert(before.contains(t));
                            }
                        }
                    }
                }
            },
            None => {
                proof {
                    assert forall|t: Seq<Seq<char>>| #[trigger]
                        file_paths(targets@).contains(t) <==> exists|j: int|
                        0 <= j < i + 1 && link_leads(note@, paths, j, t) by {
                        if exists|j: int| 0 <= j < i + 1 && link_leads(note@, paths, j, t) {
                            let j = choose|j: int|
                                0 <= j < i + 1 && link_leads(note@, paths, j, t);
                            assert(j < i);
                        }
                    }
                }
            },
        }
        i = i + 1;
    }
    assert forall|target: Seq<Seq<char>>| #[trigger]
        file_paths(targets@).contains(target) <==> links_to(note@, paths, target) by {
        if links_to(note@, paths, target) {
            let j = choose|j: int| link_leads(note@, paths, j, target);
            assert(0 <= j < i && link_leads(note@, paths, j, target));
        }
    }
    targets
}

/// `targets` are, in order, all files that the note links to.
pub open spec fn lists_links(
    targets: Seq<Seq<Seq<char>>>,
    note: NoteView,
    paths: Seq<Seq<Seq<char>>>,
) -> bool {
    &&& strictly_ascending(targets)
    &&& forall|target: Seq<Seq<char>>| #[trigger]
        targets.contains(target) <==> links_to(note, paths, target)
}

/// The files that a note links to, in order.
pub open spec fn note_targets(note: NoteView, paths: Seq<Seq<Seq<char>>>) -> Seq<Seq<Seq<char>>> {
    choose|targets: Seq<Seq<Seq<char>>>| lists_links(targets, note, paths)
}

/// The links of `notes`, note by note, each as target and source.
pub open spec fn listed_edges(notes: Seq<NoteView>, paths: Seq<Seq<Seq<char>>>) -> Seq<
    (Seq<Seq<char>>, Seq<Seq<char>>),
>
    decreases notes.len(),
{
    if notes.len() == 0 {
        Seq::empty()
    } else {
        let targets = note_targets(notes.last(), paths);
        listed_edges(notes.drop_last(), paths) + Seq::new(
            targets.len(),
            |i: int| (targets[i], notes.last().path),
        )
    }
}

/// A strictly ascending list with one more member.
proof fn lemma_with_member(paths: Seq<Seq<Seq<char>>>, path: Seq<Seq<char>>) -> (all: Seq<
    Seq<Seq<char>>,
>)
    requires
        strictly_ascending(paths),
    ensures
        strictly_ascending(all),
        forall|p: Seq<Seq<char>>| #[trigger]
            all.contains(p) <==> paths.contains(p) || p == path,
{
    if paths.contains(path) {
        paths
    } else {
        let at = lemma_place_for(paths, path);
        lemma_insert_strictly(paths, path, at);
        paths.insert(at, path)
    }
}

proof fn lemma_place_for(paths: Seq<Seq<Seq<char>>>, path: Seq<Seq<char>>) -> (at: int)
    requires
        strictly_ascending(paths),
        !paths.contains(path),
    ensures
        0 <= at <= paths.len(),
        forall|i: int| 0 <= i < at ==> path_lt(#[trigger] paths[i], path),
        forall|i: int| at <= i < paths.len() ==> path_lt(path, #[trigger] paths[i]),
    decreases paths.len(),
{
    if paths.len() == 0 {
        0
    } else {
        let last = paths.last();
        assert(paths.contains(last));
        lemma_path_lt_total(last, path);
        if path_lt(last, path) {
            assert forall|i: int| 0 <= i < paths.len() implies path_lt(
                #[trigger] paths[i],
                path,
            ) by {
                if i < paths.len() - 1 {
                    lemma_path_lt_transitive(paths[i], paths[paths.len() - 1], path);
                }
            }
            paths.len() as int
        } else {
            let head = paths.drop_last();
            if head.contains(path) {
                let i = choose|i: int| 0 <= i < head.len() && head[i] == path;
                assert(paths[i] == path);
            }
            let at = lemma_place_for(head, path);
            assert forall|i: int| 0 <= i < at implies path_lt(#[trigger] paths[i], path) by {
                assert(head[i] == paths[i]);
            }
            assert forall|i: int| at <= i < paths.len() implies path_lt(
                path,
                #[trigger] paths[i],
            ) by {
                if i < paths.len() - 1 {
                    assert(head[i] == paths[i]);
                }
            }
            at
        }
    }
}

proof fn lemma_some_targets_listed(
    note: NoteView,
    paths: Seq<Seq<Seq<char>>>,
    n: int,
) -> (targets: Seq<Seq<Seq<char>>>)
    requires
        0 <= n <= note.outlinks.len(),
    ensures
        strictly_ascending(targets),
        forall|target: Seq<Seq<char>>| #[trigger]
            targets.contains(target) <==> exists|j: int|
                0 <= j < n && link_leads(note, paths, j, target),
    decreases n,
{
    if n == 0 {
        Seq::empty()
    } else {
        let before = lemma_some_targets_listed(note, paths, n - 1);
        let found = linked_file(paths, note.path, target_of(note.outlinks[n - 1].target));
        let targets = match found {
            Some(path) => lemma_with_member(before, path),
            None => before,
        };
        assert forall|target: Seq<Seq<char>>| #[trigger]
            targets.contains(target) <==> exists|j: int|
            0 <= j < n && link_leads(note, paths, j, target) by {
            if targets.contains(target) {
                if before.contains(target) {
                    let j = choose|j: int|
                        0 <= j < n - 1 && link_leads(note, paths, j, target);
                    assert(0 <= j < n && link_leads(note, paths, j, target));
                } else {
                    assert(link_leads(note, paths, n - 1, target));
                }
            }
            if exists|j: int| 0 <= j < n && link_leads(note, paths, j, target) {
                let j = choose|j: int| 0 <= j < n && link_leads(note, paths, j, target);
                if j < n - 1 {
                    assert(0 <= j < n - 1 && link_leads(note, paths, j, target));
                    assert(before.contains(target));
                }
            }
        }
        targets
    }
}

proof fn lemma_targets_can_be_listed(note: NoteView, paths: Seq<Seq<Seq<char>>>)
    ensures
        lists_links(note_targets(note, paths), note, paths),
{
    let targets = lemma_some_targets_listed(note, paths, note.outlinks.len() as int);
    assert forall|target: Seq<Seq<char>>| #[trigger]
        targets.contains(target) <==> links_to(note, paths, target) by {
        if links_to(note, paths, target) {
            let j = choose|j: int| link_leads(note, paths, j, target);
            assert(0 <= j < note.outlinks.len() && link_leads(note, paths, j, target));
        }
    }
    assert(lists_links(targets, note, paths));
}

proof fn lemma_note_targets(
    targets: Seq<Seq<Seq<char>>>,
    note: NoteView,
    paths: Seq<Seq<Seq<char>>>,
)
    requires
        lists_links(targets, note, paths),
    ensures
        targets == note_targets(note, paths),
{
    let chosen = note_targets(note, paths);
    assert(lists_links(chosen, note, paths));
    assert forall|p: Seq<Seq<char>>| #[trigger] targets.contains(p) <==> chosen.contains(p) by {
        assert(chosen.contains(p) <==> links_to(note, paths, p));
    }
    law_members_determine_order(targets, chosen);
}

/// The links of `notes` to `files`, note by note, each as target and source.
pub fn resolve_edges_for(notes: &Vec<Note>, files: &SortedByPath<FileBase>) -> (edges: Vec<
    (FilePath, FilePath),
>)
    ensures
        pair_views(edges@) == listed_edges(note_views(notes@), places(files@)),
        pair_spelling(edges@).within(graph_spelling(note_views(notes@), file_views(files@))),
{
    let ghost views = note_views(notes@);
    let ghost texts = graph_spelling(views, file_views(files@));
    let ghost paths = places(files@);
    let resolver = LinkResolver::new(files);
    let mut edges: Vec<(FilePath, FilePath)> = Vec::new();
    proof {
        assert(views.take(0) =~= Seq::empty());
        assert(pair_views(edges@) =~= Seq::empty());
    }
    let mut i: usize = 0;
    while i < notes.len()
        invariant
            i <= notes@.len(),
            views == note_views(notes@),
            paths == resolver.paths(),
            pair_views(edges@) == listed_edges(views.take(i as int), paths),
            texts.targets == resolver.texts().to_set(),
            texts.sources == note_texts(views).to_set(),
            pairs_within(edges@, texts),
        decreases notes@.len() - i,
    {
        let ghost before = pair_views(edges@);
        let targets = resolve_note(&resolver, &notes[i]);
        let ghost found = file_paths(targets@);
        let ghost from = notes@[i as int]@.path;
        let ghost own = Seq::new(found.len(), |k: int| (found[k], from));
        proof {
            let next = views.take(i + 1);
            assert(next.drop_last() =~= views.take(i as int));
            assert(next.last() == views[i as int]);
            lemma_note_targets(found, views[i as int], paths);
            assert(before + own.take(0) =~= before);
            assert(note_texts(views)[i as int] == notes@[i as int]@.path_text);
            assert(note_texts(views).contains(notes@[i as int]@.path_text));
        }
        let mut j: usize = 0;
        while j < targets.len()
            invariant
                j <= targets@.len(),
                i < notes@.len(),
                found == file_paths(targets@),
                from == notes@[i as int]@.path,
                own == Seq::new(found.len(), |k: int| (found[k], from)),
                pair_views(edges@) == before + own.take(j as int),
                texts.targets == resolver.texts().to_set(),
                texts.sources.contains(notes@[i as int]@.path_text),
                forall|k: int|
                    0 <= k < targets@.len() ==> resolver.texts().contains(
                        (#[trigger] targets@[k]).spec_text(),
                    ),
                pairs_within(edges@, texts),
            decreases targets@.len() - j,
        {
            let ghost earlier = edges@;
            edges.push((targets[j].copy(), notes[i].path().copy()));
            assert(own.take(j + 1) =~= own.take(j as int).push(own[j as int]));
            assert(pair_views(edges@) =~= pair_views(earlier).push(own[j as int]));
            j = j + 1;
            assert(pair_views(edges@) =~= before + own.take(j as int));
        }
        assert(own.take(j as int) =~= own);
        i = i + 1;
    }
    proof {
        assert(views.take(i as int) =~= views);
        lemma_pairs_within(edges@, texts);
    }
    edges
}

/// Listing links note by note gives the links of the graph.
pub proof fn law_listed_edges_are_the_graph(notes: Seq<NoteView>, paths: Seq<Seq<Seq<char>>>)
    ensures
        listed_edges(notes, paths).to_set() == link_graph(notes, paths),
    decreases notes.len(),
{
    let all = listed_edges(notes, paths);
    if notes.len() == 0 {
        assert(all.to_set() =~= link_graph(notes, paths));
    } else {
        let prior = notes.drop_last();
        let note = notes.last();
        law_listed_edges_are_the_graph(prior, paths);
        let before = listed_edges(prior, paths);
        let targets = note_targets(note, paths);
        lemma_targets_can_be_listed(note, paths);
        assert(lists_links(targets, note, paths));
        assert forall|edge: (Seq<Seq<char>>, Seq<Seq<char>>)| #[trigger]
            all.to_set().contains(edge) <==> before.to_set().contains(edge) || (edge.1 == note.path
                && targets.contains(edge.0)) by {
            if all.contains(edge) {
                let i = choose|i: int| 0 <= i < all.len() && all[i] == edge;
                if i < before.len() {
                    assert(before[i] == edge);
                } else {
                    assert(targets[i - before.len()] == edge.0);
                }
            }
            if before.contains(edge) {
                let i = choose|i: int| 0 <= i < before.len() && before[i] == edge;
                assert(all[i] == edge);
            }
            if edge.1 == note.path && targets.contains(edge.0) {
                let i = choose|i: int| 0 <= i < targets.len() && targets[i] == edge.0;
                assert(all[before.len() + i] == edge);
            }
        }
        assert(notes.take(notes.len() - 1) =~= prior);
        assert(notes.take(notes.len() as int) =~= notes);
        lemma_graph_step(
            notes,
            paths,
            notes.len() - 1,
            before.to_set(),
            targets,
            all.to_set(),
        );
    }
}

/// Canonical entries that say the same links are the same.
pub proof fn law_links_determine_entries(
    a: Seq<(Seq<Seq<char>>, Seq<Seq<Seq<char>>>)>,
    b: Seq<(Seq<Seq<char>>, Seq<Seq<Seq<char>>>)>,
)
    requires
        canonical(a),
        canonical(b),
        edges_of(a) == edges_of(b),
    ensures
        a == b,
{
    assert forall|target: Seq<Seq<char>>| #[trigger]
        targets_of(a).contains(target) <==> targets_of(b).contains(target) by {
        lemma_targets(a, target);
        lemma_targets(b, target);
    }
    law_members_determine_order(targets_of(a), targets_of(b));
    assert(a.len() == targets_of(a).len());
    assert(b.len() == targets_of(b).len());
    assert forall|i: int| 0 <= i < a.len() implies a[i] == b[i] by {
        assert(targets_of(a)[i] == targets_of(b)[i]);
        lemma_sources_of(a, i);
        lemma_sources_of(b, i);
        assert forall|p: Seq<Seq<char>>| #[trigger] a[i].1.contains(p) <==> b[i].1.contains(
            p,
        ) by {
            assert(a[i].1.contains(p) <==> edges_of(a).contains((a[i].0, p)));
            assert(b[i].1.contains(p) <==> edges_of(b).contains((b[i].0, p)));
        }
        law_members_determine_order(a[i].1, b[i].1);
    }
    assert(a =~= b);
}

} // verus!
