//! How the paths of links are written.
//!
//! Two texts can name one path. What holds links is described by their
//! components; a [`Spelling`] says in addition which texts occur, for targets
//! and for sources.

use vstd::prelude::*;

use super::delta::view_texts;
use super::inlinks::LinkEntry;
use crate::file::FileView;
use crate::note::document::NoteView;
use crate::path::FilePath;

verus! {

/// The texts that write the targets and the sources of links.
pub struct Spelling {
    /// How targets are written.
    pub targets: Set<Seq<char>>,
    /// How sources are written.
    pub sources: Set<Seq<char>>,
}

impl Spelling {
    /// Every text is one of `other`.
    pub open spec fn within(self, other: Spelling) -> bool {
        &&& self.targets.subset_of(other.targets)
        &&& self.sources.subset_of(other.sources)
    }

    /// The texts of both.
    pub open spec fn or(self, other: Spelling) -> Spelling {
        Spelling {
            targets: self.targets.union(other.targets),
            sources: self.sources.union(other.sources),
        }
    }

    /// The texts with those of one more link.
    pub open spec fn and_link(self, target: Seq<char>, source: Seq<char>) -> Spelling {
        Spelling { targets: self.targets.insert(target), sources: self.sources.insert(source) }
    }
}

/// No text.
pub open spec fn no_spelling() -> Spelling {
    Spelling { targets: Set::empty(), sources: Set::empty() }
}

/// How the path of each note is written.
pub open spec fn note_texts(notes: Seq<NoteView>) -> Seq<Seq<char>> {
    Seq::new(notes.len(), |i: int| notes[i].path_text)
}

/// How links from `notes` to `files` are written: as the files and the notes
/// write their own paths.
pub open spec fn graph_spelling(notes: Seq<NoteView>, files: Seq<FileView>) -> Spelling {
    Spelling { targets: view_texts(files).to_set(), sources: note_texts(notes).to_set() }
}

/// Entry `i` writes its target as `text`.
pub open spec fn writes_target(entries: Seq<LinkEntry>, text: Seq<char>, i: int) -> bool {
    0 <= i < entries.len() && entries[i].target.spec_text() == text
}

/// Entry `i` writes its source `j` as `text`.
pub open spec fn writes_source(entries: Seq<LinkEntry>, text: Seq<char>, i: int, j: int) -> bool {
    &&& 0 <= i < entries.len()
    &&& 0 <= j < entries[i].sources@.len()
    &&& entries[i].sources@[j].spec_text() == text
}

/// How the links of `entries` are written.
pub open spec fn spelling_of(entries: Seq<LinkEntry>) -> Spelling {
    Spelling {
        targets: Set::new(|text: Seq<char>| exists|i: int| writes_target(entries, text, i)),
        sources: Set::new(
            |text: Seq<char>| exists|i: int, j: int| writes_source(entries, text, i, j),
        ),
    }
}

/// How each link is written, where each is a target and a source.
pub open spec fn pair_spelling(pairs: Seq<(FilePath, FilePath)>) -> Spelling {
    Spelling {
        targets: Seq::new(pairs.len(), |i: int| pairs[i].0.spec_text()).to_set(),
        sources: Seq::new(pairs.len(), |i: int| pairs[i].1.spec_text()).to_set(),
    }
}

/// Each of `pairs` is written within `spelling`.
pub open spec fn pairs_within(pairs: Seq<(FilePath, FilePath)>, spelling: Spelling) -> bool {
    forall|i: int| #![trigger pairs[i]]
        0 <= i < pairs.len() ==> spelling.targets.contains(pairs[i].0.spec_text())
            && spelling.sources.contains(pairs[i].1.spec_text())
}

/// Where each pair is written within `spelling`, so are all of them.
pub proof fn lemma_pairs_within(pairs: Seq<(FilePath, FilePath)>, spelling: Spelling)
    ensures
        pairs_within(pairs, spelling) <==> pair_spelling(pairs).within(spelling),
{
    let own = pair_spelling(pairs);
    let targets = Seq::new(pairs.len(), |i: int| pairs[i].0.spec_text());
    let sources = Seq::new(pairs.len(), |i: int| pairs[i].1.spec_text());
    if pairs_within(pairs, spelling) {
        assert forall|text: Seq<char>| own.targets.contains(text) implies
            spelling.targets.contains(text) by {
            let i = choose|i: int| 0 <= i < targets.len() && targets[i] == text;
            assert(pairs[i].0.spec_text() == text);
        }
        assert forall|text: Seq<char>| own.sources.contains(text) implies
            spelling.sources.contains(text) by {
            let i = choose|i: int| 0 <= i < sources.len() && sources[i] == text;
            assert(pairs[i].1.spec_text() == text);
        }
    }
    if own.within(spelling) {
        assert forall|i: int| #![trigger pairs[i]] 0 <= i < pairs.len() implies
            spelling.targets.contains(pairs[i].0.spec_text()) && spelling.sources.contains(
            pairs[i].1.spec_text(),
        ) by {
            assert(targets.contains(targets[i]));
            assert(sources.contains(sources[i]));
            assert(own.targets.contains(targets[i]));
            assert(own.sources.contains(sources[i]));
        }
    }
}

/// Replacing the sources of an entry by its own and one more adds at most the
/// text of that one.
pub proof fn lemma_changed_spelling(
    rows: Seq<LinkEntry>,
    at: int,
    entry: LinkEntry,
    target: FilePath,
    source: FilePath,
)
    requires
        0 <= at < rows.len(),
        entry.target == rows[at].target,
        forall|j: int|
            0 <= j < entry.sources@.len() ==> (#[trigger] entry.sources@[j]) == source
                || rows[at].sources@.contains(entry.sources@[j]),
    ensures
        spelling_of(rows.update(at, entry)).within(
            spelling_of(rows).and_link(target.spec_text(), source.spec_text()),
        ),
{
    let next = rows.update(at, entry);
    let before = spelling_of(rows);
    assert forall|text: Seq<char>| spelling_of(next).targets.contains(text) implies
        before.targets.contains(text) by {
        let i = choose|i: int| writes_target(next, text, i);
        assert(writes_target(rows, text, i));
    }
    assert forall|text: Seq<char>| spelling_of(next).sources.contains(text) && text
        != source.spec_text() implies before.sources.contains(text) by {
        let (i, j) = choose|i: int, j: int| writes_source(next, text, i, j);
        if i == at {
            assert(entry.sources@[j].spec_text() == text);
            let k = choose|k: int|
                0 <= k < rows[at].sources@.len() && rows[at].sources@[k] == entry.sources@[j];
            assert(writes_source(rows, text, at, k));
        } else {
            assert(writes_source(rows, text, i, j));
        }
    }
}

/// One more entry for a single link adds at most the texts of that link.
pub proof fn lemma_added_spelling(rows: Seq<LinkEntry>, at: int, entry: LinkEntry)
    requires
        0 <= at <= rows.len(),
        entry.sources@.len() == 1,
    ensures
        spelling_of(rows.insert(at, entry)).within(
            spelling_of(rows).and_link(entry.target.spec_text(), entry.sources@[0].spec_text()),
        ),
{
    let next = rows.insert(at, entry);
    let before = spelling_of(rows);
    assert forall|text: Seq<char>| spelling_of(next).targets.contains(text) && text
        != entry.target.spec_text() implies before.targets.contains(text) by {
        let i = choose|i: int| writes_target(next, text, i);
        assert(writes_target(rows, text, if i < at { i } else { i - 1 }));
    }
    assert forall|text: Seq<char>| spelling_of(next).sources.contains(text) && text
        != entry.sources@[0].spec_text() implies before.sources.contains(text) by {
        let (i, j) = choose|i: int, j: int| writes_source(next, text, i, j);
        assert(i != at);
        assert(writes_source(rows, text, if i < at { i } else { i - 1 }, j));
    }
}

} // verus!
