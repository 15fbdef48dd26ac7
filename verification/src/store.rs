//! A store of file paths, each under the hash of its path.
//!
//! Entries and their companion files are read and written elsewhere. Here is
//! where they are, which of them are stale, and what a failure means.

use vstd::prelude::*;
use vstd::string::*;
use vstd::utf8::encode_utf8;

use crate::dirtree::DirTreeError;
use crate::fault::{path_message, IoFault, IoFaultKind};
use crate::hash::{blake3_hex, is_hex_digit, Blake3PathHash};
use crate::path::{joined_text, path_texts, FilePath};
use crate::query::outcome::str_texts;

verus! {

/// A failed operation of a store.
#[derive(Debug)]
pub enum FileStateStoreError {
    /// A target cannot be made canonical.
    Canonicalize {
        /// The target.
        path: FilePath,
        /// What the system says.
        source: IoFault,
    },
    /// An entry cannot be created, checked, read or removed.
    StoreIo {
        /// The entry, or the directory of the store.
        path: FilePath,
        /// What the system says.
        source: IoFault,
    },
    /// A companion file cannot be read.
    CompanionRead {
        /// The companion file.
        path: FilePath,
        /// What the system says.
        source: IoFault,
    },
    /// A companion file cannot be written.
    CompanionWrite {
        /// The companion file.
        path: FilePath,
        /// What the system says.
        source: IoFault,
    },
    /// A companion file cannot be removed.
    CompanionRemove {
        /// The companion file.
        path: FilePath,
        /// What the system says.
        source: IoFault,
    },
}

impl FileStateStoreError {
    /// The text that describes this error.
    pub open spec fn message_text(self) -> Seq<char> {
        match self {
            FileStateStoreError::Canonicalize { path, .. } => "failed to canonicalize path "@
                + path.spec_text() + ""@,
            FileStateStoreError::StoreIo { path, .. } =>
                "file state store operation failed for "@ + path.spec_text() + ""@,
            FileStateStoreError::CompanionRead { path, .. } => "failed to read companion file "@
                + path.spec_text() + ""@,
            FileStateStoreError::CompanionWrite { path, .. } =>
                "failed to write companion file "@ + path.spec_text() + ""@,
            FileStateStoreError::CompanionRemove { path, .. } =>
                "failed to remove companion file "@ + path.spec_text() + ""@,
        }
    }

    /// Describes this error.
    pub fn message(&self) -> (text: String)
        ensures
            text@ == self.message_text(),
    {
        match self {
            FileStateStoreError::Canonicalize { path, .. } => path_message(
                "failed to canonicalize path ",
                path,
                "",
            ),
            FileStateStoreError::StoreIo { path, .. } => path_message(
                "file state store operation failed for ",
                path,
                "",
            ),
            FileStateStoreError::CompanionRead { path, .. } => path_message(
                "failed to read companion file ",
                path,
                "",
            ),
            FileStateStoreError::CompanionWrite { path, .. } => path_message(
                "failed to write companion file ",
                path,
                "",
            ),
            FileStateStoreError::CompanionRemove { path, .. } => path_message(
                "failed to remove companion file ",
                path,
                "",
            ),
        }
    }
}

/// The error for a failed walk through the directory of the store.
pub fn store_error(error: DirTreeError) -> (converted: FileStateStoreError)
    ensures
        converted matches FileStateStoreError::StoreIo { path, source } && path.spec_text()
            == error.place()
            && source@ == error.fault(),
{
    let (path, source) = error.into_parts();
    FileStateStoreError::StoreIo { path, source }
}

/// The entry of a canonical path.
#[derive(Debug)]
pub struct StoreEntry {
    canonical_target: FilePath,
    hash: Blake3PathHash,
}

/// Contents of a [`StoreEntry`].
pub struct StoreEntryView {
    /// How the canonical path is written.
    pub target: Seq<char>,
    /// The name of the entry.
    pub name: Seq<char>,
}

impl View for StoreEntry {
    type V = StoreEntryView;

    closed spec fn view(&self) -> StoreEntryView {
        StoreEntryView { target: self.canonical_target.spec_text(), name: self.hash@ }
    }
}

impl StoreEntry {
    /// The entry of the canonical path `canonical_target`.
    pub fn new(canonical_target: &str) -> (entry: Self)
        ensures
            entry@ == (StoreEntryView {
                target: canonical_target@,
                name: blake3_hex(encode_utf8(canonical_target@)),
            }),
    {
        StoreEntry {
            canonical_target: FilePath::new(canonical_target),
            hash: Blake3PathHash::from(canonical_target),
        }
    }

    /// The entry of `target`, whose canonical path was looked up.
    pub fn try_from(target: &FilePath, canonical: Result<String, IoFault>) -> (result: Result<
        Self,
        FileStateStoreError,
    >)
        ensures
            match (result, canonical) {
                (Ok(entry), Ok(text)) => entry@ == (StoreEntryView {
                    target: text@,
                    name: blake3_hex(encode_utf8(text@)),
                }),
                (Err(FileStateStoreError::Canonicalize { path, source }), Err(fault)) =>
                path.spec_text() == target.spec_text() && source@ == fault@,
                _ => false,
            },
    {
        match canonical {
            Ok(text) => Ok(StoreEntry::new(text.as_str())),
            Err(source) => Err(FileStateStoreError::Canonicalize { path: target.copy(), source }),
        }
    }

    /// The path that is recorded.
    pub fn canonical_target(&self) -> (target: &FilePath)
        ensures
            target.spec_text() == self@.target,
    {
        &self.canonical_target
    }

    /// Where the entry is in the directory `root`.
    pub fn path_in(&self, root: &FilePath) -> (path: FilePath)
        ensures
            path@ == root@.push(self@.name),
            path.spec_text() == joined_text(root.spec_text(), self@.name),
    {
        let name = self.hash.as_str();
        proof {
            assert(is_hex_digit(name@[0]));
            if name@.contains('/') {
                let i = choose|i: int| 0 <= i < name@.len() && name@[i] == '/';
                assert(is_hex_digit(name@[i]));
            }
        }
        root.join(name)
    }
}

/// The companion file of an entry: its path with `suffix` behind it.
pub open spec fn companion_of(entry: Seq<char>, suffix: Seq<char>) -> Seq<char> {
    entry + suffix
}

/// The companion file of an entry: its path with `suffix` behind it.
pub fn companion_path(entry: &FilePath, suffix: &str) -> (path: FilePath)
    ensures
        path.spec_text() == companion_of(entry.spec_text(), suffix@),
{
    let text = entry.to_text().concat(suffix);
    FilePath::new(text.as_str())
}

/// What was found at one place in the store.
#[derive(Debug)]
pub struct StoredEntry {
    /// Where it is.
    pub path: FilePath,
    /// The path it records, where it can be read.
    pub recorded: Option<FilePath>,
    /// The recorded path still exists.
    pub is_present: bool,
}

/// The entry records a path that still exists.
pub open spec fn is_live(entry: StoredEntry) -> bool {
    entry.recorded is Some && entry.is_present
}

/// The entry records a path that exists no more.
pub open spec fn is_stale(entry: StoredEntry) -> bool {
    entry.recorded is Some && !entry.is_present
}

/// The recorded paths that still exist.
pub open spec fn live_paths(entries: Seq<StoredEntry>) -> Seq<Seq<char>>
    decreases entries.len(),
{
    if entries.len() == 0 {
        Seq::empty()
    } else {
        let before = live_paths(entries.drop_last());
        if is_live(entries.last()) {
            before.push(entries.last().recorded.unwrap().spec_text())
        } else {
            before
        }
    }
}

/// Where the stale entries are.
pub open spec fn stale_paths(entries: Seq<StoredEntry>) -> Seq<Seq<char>>
    decreases entries.len(),
{
    if entries.len() == 0 {
        Seq::empty()
    } else {
        let before = stale_paths(entries.drop_last());
        if is_stale(entries.last()) {
            before.push(entries.last().path.spec_text())
        } else {
            before
        }
    }
}

/// The recorded paths that still exist. Unreadable entries do not count.
pub fn live_targets(entries: &Vec<StoredEntry>) -> (targets: Vec<FilePath>)
    ensures
        path_texts(targets@) == live_paths(entries@),
{
    let mut targets: Vec<FilePath> = Vec::new();
    let mut i: usize = 0;
    proof {
        assert(entries@.take(0) =~= Seq::empty());
        assert(path_texts(targets@) =~= Seq::empty());
    }
    while i < entries.len()
        invariant
            i <= entries@.len(),
            path_texts(targets@) == live_paths(entries@.take(i as int)),
        decreases entries@.len() - i,
    {
        let ghost before = path_texts(targets@);
        proof {
            let next = entries@.take(i + 1);
            assert(next.drop_last() =~= entries@.take(i as int));
            assert(next.last() == entries@[i as int]);
        }
        if let Some(target) = &entries[i].recorded {
            if entries[i].is_present {
                targets.push(target.copy());
                assert(path_texts(targets@) =~= before.push(target.spec_text()));
            }
        }
        i = i + 1;
    }
    assert(entries@.take(i as int) =~= entries@);
    targets
}

/// The entries to remove: those whose recorded path exists no more. Unreadable
/// entries stay.
pub fn stale_entries(entries: &Vec<StoredEntry>) -> (stale: Vec<FilePath>)
    ensures
        path_texts(stale@) == stale_paths(entries@),
{
    let mut stale: Vec<FilePath> = Vec::new();
    let mut i: usize = 0;
    proof {
        assert(entries@.take(0) =~= Seq::empty());
        assert(path_texts(stale@) =~= Seq::empty());
    }
    while i < entries.len()
        invariant
            i <= entries@.len(),
            path_texts(stale@) == stale_paths(entries@.take(i as int)),
        decreases entries@.len() - i,
    {
        let ghost before = path_texts(stale@);
        proof {
            let next = entries@.take(i + 1);
            assert(next.drop_last() =~= entries@.take(i as int));
            assert(next.last() == entries@[i as int]);
        }
        if entries[i].recorded.is_some() && !entries[i].is_present {
            stale.push(entries[i].path.copy());
            assert(path_texts(stale@) =~= before.push(entries@[i as int].path.spec_text()));
        }
        i = i + 1;
    }
    assert(entries@.take(i as int) =~= entries@);
    stale
}

/// What a cleanup removes besides stale entries.
#[derive(Copy, Clone, Debug)]
pub enum FileStoreCleanMode<'a> {
    /// Nothing.
    EntriesOnly,
    /// Their companion files with these suffixes.
    WithCompanions(&'a [&'a str]),
}

/// The companion files of one entry.
pub open spec fn companions_of_entry(entry: Seq<char>, suffixes: Seq<Seq<char>>) -> Seq<
    Seq<char>,
> {
    Seq::new(suffixes.len(), |i: int| companion_of(entry, suffixes[i]))
}

/// The companion files of all entries.
pub open spec fn companions_of(entries: Seq<Seq<char>>, suffixes: Seq<Seq<char>>) -> Seq<
    Seq<char>,
>
    decreases entries.len(),
{
    if entries.len() == 0 {
        Seq::empty()
    } else {
        companions_of(entries.drop_last(), suffixes) + companions_of_entry(
            entries.last(),
            suffixes,
        )
    }
}

fn push_companions(paths: &mut Vec<FilePath>, entry: &FilePath, suffixes: &[&str])
    ensures
        path_texts(final(paths)@) == path_texts(old(paths)@) + companions_of_entry(
            entry.spec_text(),
            str_texts(suffixes@),
        ),
{
    let ghost start = path_texts(paths@);
    let ghost own = companions_of_entry(entry.spec_text(), str_texts(suffixes@));
    assert(start + own.take(0) =~= start);
    let mut i: usize = 0;
    while i < suffixes.len()
        invariant
            i <= suffixes@.len(),
            own == companions_of_entry(entry.spec_text(), str_texts(suffixes@)),
            path_texts(paths@) == start + own.take(i as int),
        decreases suffixes@.len() - i,
    {
        let ghost before = path_texts(paths@);
        let path = companion_path(entry, suffixes[i]);
        assert(path.spec_text() == own[i as int]);
        paths.push(path);
        proof {
            assert(path_texts(paths@) =~= before.push(own[i as int]));
            assert(own.take(i + 1) =~= own.take(i as int).push(own[i as int]));
            assert(path_texts(paths@) =~= start + own.take(i + 1));
        }
        i = i + 1;
    }
    assert(own.take(i as int) =~= own);
}

/// The companion files to remove after the entries `removed`.
pub fn companions_to_remove(removed: &Vec<FilePath>, mode: FileStoreCleanMode) -> (paths: Vec<
    FilePath,
>)
    ensures
        path_texts(paths@) == match mode {
            FileStoreCleanMode::EntriesOnly => Seq::empty(),
            FileStoreCleanMode::WithCompanions(suffixes) => companions_of(
                path_texts(removed@),
                str_texts(suffixes@),
            ),
        },
{
    let mut paths: Vec<FilePath> = Vec::new();
    assert(path_texts(paths@) =~= Seq::empty());
    if let FileStoreCleanMode::WithCompanions(suffixes) = mode {
        let ghost all = path_texts(removed@);
        let ghost texts = str_texts(suffixes@);
        let mut i: usize = 0;
        assert(all.take(0) =~= Seq::empty());
        while i < removed.len()
            invariant
                i <= removed@.len(),
                all == path_texts(removed@),
                texts == str_texts(suffixes@),
                path_texts(paths@) == companions_of(all.take(i as int), texts),
            decreases removed@.len() - i,
        {
            proof {
                let next = all.take(i + 1);
                assert(next.drop_last() =~= all.take(i as int));
                assert(next.last() == removed@[i as int].spec_text());
            }
            push_companions(&mut paths, &removed[i], suffixes);
            i = i + 1;
        }
        assert(all.take(i as int) =~= all);
    }
    paths
}

/// What removing the entry at `path` came to: 1 where it was removed, 0 where
/// it was absent.
pub fn entry_removed(path: FilePath, outcome: Result<(), IoFault>) -> (result: Result<
    usize,
    FileStateStoreError,
>)
    ensures
        match (result, outcome) {
            (Ok(count), Ok(_)) => count == 1,
            (Ok(count), Err(fault)) => count == 0 && fault@.kind == IoFaultKind::NotFound,
            (Err(FileStateStoreError::StoreIo { path: place, source }), Err(fault)) => place.spec_text()
                == path.spec_text() && source@ == fault@ && fault@.kind != IoFaultKind::NotFound,
            _ => false,
        },
{
    match outcome {
        Ok(_) => Ok(1),
        Err(source) => if source.is_not_found() {
            Ok(0)
        } else {
            Err(FileStateStoreError::StoreIo { path, source })
        },
    }
}

/// What removing the stale entry at `path` came to: the entry that is gone. One
/// that cannot be removed is an error, whatever the fault.
pub fn stale_removed(path: FilePath, outcome: Result<(), IoFault>) -> (result: Result<
    FilePath,
    FileStateStoreError,
>)
    ensures
        match (result, outcome) {
            (Ok(removed), Ok(_)) => removed.spec_text() == path.spec_text(),
            (Err(FileStateStoreError::StoreIo { path: place, source }), Err(fault)) => place.spec_text()
                == path.spec_text() && source@ == fault@,
            _ => false,
        },
{
    match outcome {
        Ok(_) => Ok(path),
        Err(source) => Err(FileStateStoreError::StoreIo { path, source }),
    }
}

/// What removing the companion file at `path` came to. An absent one is as good
/// as removed.
pub fn companion_removed(path: FilePath, outcome: Result<(), IoFault>) -> (result: Result<
    (),
    FileStateStoreError,
>)
    ensures
        match (result, outcome) {
            (Ok(_), Ok(_)) => true,
            (Ok(_), Err(fault)) => fault@.kind == IoFaultKind::NotFound,
            (Err(FileStateStoreError::CompanionRemove { path: place, source }), Err(fault)) =>
            place.spec_text()
                == path.spec_text() && source@ == fault@ && fault@.kind != IoFaultKind::NotFound,
            _ => false,
        },
{
    match outcome {
        Ok(_) => Ok(()),
        Err(source) => if source.is_not_found() {
            Ok(())
        } else {
            Err(FileStateStoreError::CompanionRemove { path, source })
        },
    }
}

/// What reading the companion file at `path` came to: nothing where it is
/// absent.
pub fn companion_read(path: FilePath, outcome: Result<String, IoFault>) -> (result: Result<
    Option<String>,
    FileStateStoreError,
>)
    ensures
        match (result, outcome) {
            (Ok(Some(text)), Ok(contents)) => text@ == contents@,
            (Ok(None), Err(fault)) => fault@.kind == IoFaultKind::NotFound,
            (Err(FileStateStoreError::CompanionRead { path: place, source }), Err(fault)) => place.spec_text()
                == path.spec_text() && source@ == fault@ && fault@.kind != IoFaultKind::NotFound,
            _ => false,
        },
{
    match outcome {
        Ok(contents) => Ok(Some(contents)),
        Err(source) => if source.is_not_found() {
            Ok(None)
        } else {
            Err(FileStateStoreError::CompanionRead { path, source })
        },
    }
}

/// What writing the companion file at `path` came to.
pub fn companion_written(path: FilePath, outcome: Result<(), IoFault>) -> (result: Result<
    (),
    FileStateStoreError,
>)
    ensures
        match (result, outcome) {
            (Ok(_), Ok(_)) => true,
            (Err(FileStateStoreError::CompanionWrite { path: place, source }), Err(fault)) =>
            place.spec_text()
                == path.spec_text() && source@ == fault@,
            _ => false,
        },
{
    match outcome {
        Ok(_) => Ok(()),
        Err(source) => Err(FileStateStoreError::CompanionWrite { path, source }),
    }
}

/// What checking for the entry at `path` came to.
pub fn entry_checked(path: FilePath, outcome: Result<bool, IoFault>) -> (result: Result<
    bool,
    FileStateStoreError,
>)
    ensures
        match (result, outcome) {
            (Ok(found), Ok(there)) => found == there,
            (Err(FileStateStoreError::StoreIo { path: place, source }), Err(fault)) => place.spec_text()
                == path.spec_text() && source@ == fault@,
            _ => false,
        },
{
    match outcome {
        Ok(there) => Ok(there),
        Err(source) => Err(FileStateStoreError::StoreIo { path, source }),
    }
}

/// What comes next while a path is recorded.
#[derive(Copy, Clone, Debug, PartialEq, Eq, Structural)]
pub enum RecordStep {
    /// The directory of the store has to be there.
    CreateRoot,
    /// The entry has to be written.
    WriteEntry,
    /// The path is recorded.
    Done,
}

/// The step after it was seen whether the entry exists. A path that is recorded
/// is not written again.
pub fn after_check(is_recorded: bool) -> (step: RecordStep)
    ensures
        step == if is_recorded {
            RecordStep::Done
        } else {
            RecordStep::CreateRoot
        },
{
    if is_recorded {
        RecordStep::Done
    } else {
        RecordStep::CreateRoot
    }
}

/// The step after `step` was tried. A failure is about the directory where that
/// was to be created, and about the entry otherwise.
pub fn after_step(
    step: RecordStep,
    root: &FilePath,
    entry: &FilePath,
    outcome: Result<(), IoFault>,
) -> (result: Result<RecordStep, FileStateStoreError>)
    ensures
        match (result, outcome) {
            (Ok(next), Ok(_)) => next == match step {
                RecordStep::CreateRoot => RecordStep::WriteEntry,
                RecordStep::WriteEntry => RecordStep::Done,
                RecordStep::Done => RecordStep::Done,
            },
            (Err(FileStateStoreError::StoreIo { path, source }), Err(fault)) => source@ == fault@
                && path.spec_text() == if step == RecordStep::CreateRoot {
                root.spec_text()
            } else {
                entry.spec_text()
            },
            _ => false,
        },
{
    match outcome {
        Ok(_) => Ok(
            match step {
                RecordStep::CreateRoot => RecordStep::WriteEntry,
                RecordStep::WriteEntry => RecordStep::Done,
                RecordStep::Done => RecordStep::Done,
            },
        ),
        Err(source) => {
            let path = if step == RecordStep::CreateRoot {
                root.copy()
            } else {
                entry.copy()
            };
            Err(FileStateStoreError::StoreIo { path, source })
        },
    }
}

/// No entry is both kept and removed, and an unreadable one is neither.
pub proof fn law_live_and_stale_exclude_each_other(entry: StoredEntry)
    ensures
        !(is_live(entry) && is_stale(entry)),
        entry.recorded is Some ==> is_live(entry) || is_stale(entry),
        entry.recorded is None ==> !is_live(entry) && !is_stale(entry),
{
}

} // verus!
