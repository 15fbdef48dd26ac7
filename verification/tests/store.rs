//! The file state store, driven over an in-memory disk.

use std::collections::{BTreeMap, BTreeSet};

use traces::dirtree::{classify, is_pruned, DirTreeError};
use traces::fault::{IoFault, IoFaultKind};
use traces::hash::{Blake3FileHash, Blake3PathHash};
use traces::path::FilePath;
use traces::store::{
    after_check, after_step, companion_path, companion_read, companion_removed,
    companion_written, companions_to_remove, entry_checked, entry_removed,
    live_targets, stale_entries, stale_removed, store_error, FileStateStoreError,
    FileStoreCleanMode, RecordStep, StoreEntry, StoredEntry,
};

fn not_found() -> IoFault {
    IoFault::new(IoFaultKind::NotFound, "no such file or directory")
}

fn texts(paths: &[FilePath]) -> Vec<String> {
    paths.iter().map(FilePath::to_text).collect()
}

struct Fixture {
    root: FilePath,
    is_root_present: bool,
    is_root_a_file: bool,
    targets: BTreeSet<String>,
    entries: BTreeMap<String, Option<String>>,
    companions: BTreeMap<String, String>,
}

impl Fixture {
    fn new() -> Self {
        Fixture {
            root: FilePath::new("/state/store"),
            is_root_present: false,
            is_root_a_file: false,
            targets: BTreeSet::new(),
            entries: BTreeMap::new(),
            companions: BTreeMap::new(),
        }
    }

    fn target(&mut self, name: &str) -> FilePath {
        let path = FilePath::new(&format!("/state/{name}"));
        self.targets.insert(path.to_text());
        path
    }

    fn entry_for(&self, target: &FilePath) -> Result<StoreEntry, FileStateStoreError> {
        let text = target.to_text();
        let canonical = if self.targets.contains(&text) { Ok(text) } else { Err(not_found()) };
        StoreEntry::try_from(target, canonical)
    }

    fn entry_path_for(&self, target: &FilePath) -> FilePath {
        StoreEntry::new(&target.to_text()).path_in(&self.root)
    }

    fn contains(&self, target: &FilePath) -> Result<bool, FileStateStoreError> {
        let path = self.entry_for(target)?.path_in(&self.root);
        let found = self.entries.contains_key(&path.to_text());
        entry_checked(path, Ok(found))
    }

    fn record(&mut self, target: &FilePath) -> Result<(), FileStateStoreError> {
        let entry = self.entry_for(target)?;
        let path = entry.path_in(&self.root);
        let found = self.entries.contains_key(&path.to_text());
        let mut step = after_check(entry_checked(path.copy(), Ok(found))?);
        loop {
            let outcome = match step {
                RecordStep::Done => return Ok(()),
                RecordStep::CreateRoot if self.is_root_a_file => {
                    Err(IoFault::new(IoFaultKind::AlreadyExists, "file exists"))
                },
                RecordStep::CreateRoot => {
                    self.is_root_present = true;
                    Ok(())
                },
                RecordStep::WriteEntry => {
                    self.entries
                        .insert(path.to_text(), Some(entry.canonical_target().to_text()));
                    Ok(())
                },
            };
            step = after_step(step, &self.root, &path, outcome)?;
        }
    }

    fn stored(&self) -> Vec<StoredEntry> {
        self.entries
            .iter()
            .map(|(path, recorded)| StoredEntry {
                path: FilePath::new(path),
                recorded: recorded.as_deref().map(FilePath::new),
                is_present: recorded.as_ref().is_some_and(|target| self.targets.contains(target)),
            })
            .collect()
    }

    fn list_all(&self) -> Vec<FilePath> {
        live_targets(&self.stored())
    }

    fn remove_companion(&mut self, path: FilePath) -> Result<(), FileStateStoreError> {
        let outcome = self.companions.remove(&path.to_text()).map(|_| ()).ok_or_else(not_found);
        companion_removed(path, outcome)
    }

    fn remove_entry(&mut self, path: FilePath) -> Result<usize, FileStateStoreError> {
        let outcome = self.entries.remove(&path.to_text()).map(|_| ()).ok_or_else(not_found);
        entry_removed(path, outcome)
    }

    fn clean(&mut self, mode: FileStoreCleanMode) -> Result<usize, FileStateStoreError> {
        let mut removed = Vec::new();
        for path in stale_entries(&self.stored()) {
            let outcome =
                self.entries.remove(&path.to_text()).map(|_| ()).ok_or_else(not_found);
            removed.push(stale_removed(path, outcome)?);
        }
        for path in companions_to_remove(&removed, mode) {
            self.remove_companion(path)?;
        }
        Ok(removed.len())
    }

    fn remove_with_companions(
        &mut self,
        target: &FilePath,
        suffixes: &[&str],
    ) -> Result<usize, FileStateStoreError> {
        let path = self.entry_for(target)?.path_in(&self.root);
        let removed = self.remove_entry(path.copy())?;
        for companion in companions_to_remove(
            &vec![path],
            FileStoreCleanMode::WithCompanions(suffixes),
        ) {
            self.remove_companion(companion)?;
        }
        Ok(removed)
    }

    fn write_companion(
        &mut self,
        target: &FilePath,
        suffix: &str,
        text: &str,
    ) -> Result<(), FileStateStoreError> {
        let path = companion_path(&self.entry_for(target)?.path_in(&self.root), suffix);
        let outcome = if self.is_root_present {
            self.companions.insert(path.to_text(), text.to_owned());
            Ok(())
        } else {
            Err(not_found())
        };
        companion_written(path, outcome)
    }

    fn read_companion(
        &self,
        target: &FilePath,
        suffix: &str,
    ) -> Result<Option<String>, FileStateStoreError> {
        let path = companion_path(&self.entry_for(target)?.path_in(&self.root), suffix);
        let outcome = self.companions.get(&path.to_text()).cloned().ok_or_else(not_found);
        companion_read(path, outcome)
    }
}

#[test]
fn companion_path_appends_suffix() {
    let base = FilePath::new("/store/abc123");
    let result = companion_path(&base, ".hash");
    assert_eq!(result.to_text(), "/store/abc123.hash");
}

#[test]
fn entries_go_under_the_root_as_written() {
    let target = "/work/a";
    let name = Blake3PathHash::from(target);
    let entry = StoreEntry::new(target);
    for (root, shown) in [("/store", "/store/"), ("/store/", "/store/"), ("s//t", "s//t/")] {
        let path = entry.path_in(&FilePath::new(root));
        assert_eq!(path.to_text(), format!("{shown}{}", name.as_str()));
    }
}

#[test]
fn file_store_errors_on_nonexistent_target() {
    let fixture = Fixture::new();
    let missing = FilePath::new("/state/missing");
    assert!(matches!(
        fixture.entry_for(&missing),
        Err(FileStateStoreError::Canonicalize { .. })
    ));
    assert!(matches!(
        fixture.contains(&missing),
        Err(FileStateStoreError::Canonicalize { .. })
    ));
}

#[test]
fn errors_on_nonexistent_target() {
    let mut fixture = Fixture::new();
    let missing = FilePath::new("/state/missing");
    assert!(matches!(
        fixture.record(&missing),
        Err(FileStateStoreError::Canonicalize { .. })
    ));
}

#[test]
fn creates_entry_in_store_root() {
    let mut fixture = Fixture::new();
    let target = fixture.target("target");
    assert!(fixture.record(&target).is_ok());
    let path = fixture.entry_path_for(&target);
    assert!(fixture.entries.contains_key(&path.to_text()));
    assert_eq!(path.parent().map(|p| p.to_text()), Some("/state/store".to_owned()));
    let hash = Blake3PathHash::from("/state/target");
    assert_eq!(path.file_name(), Some(hash.as_str()));
}

#[test]
fn is_idempotent() {
    let mut fixture = Fixture::new();
    let target = fixture.target("target");
    fixture.record(&target).expect("first record");
    assert!(fixture.record(&target).is_ok());
    assert_eq!(after_check(true), RecordStep::Done);
}

#[test]
fn errors_when_store_root_is_a_file() {
    let mut fixture = Fixture::new();
    let target = fixture.target("target");
    fixture.is_root_a_file = true;
    let result = fixture.record(&target);
    assert!(matches!(result, Err(FileStateStoreError::StoreIo { .. })));
}

#[test]
fn names_the_path_of_the_failed_step() {
    let root = FilePath::new("/store");
    let entry = FilePath::new("/store/abc");
    let first = after_step(RecordStep::CreateRoot, &root, &entry, Err(not_found()));
    assert_eq!(
        first.unwrap_err().message(),
        "file state store operation failed for /store"
    );
    let second = after_step(RecordStep::WriteEntry, &root, &entry, Err(not_found()));
    assert_eq!(
        second.unwrap_err().message(),
        "file state store operation failed for /store/abc"
    );
}

#[test]
fn returns_false_for_unrecorded_target() {
    let mut fixture = Fixture::new();
    let target = fixture.target("target");
    assert_eq!(fixture.contains(&target).unwrap(), false);
}

#[test]
fn returns_true_for_recorded_target() {
    let mut fixture = Fixture::new();
    let target = fixture.target("target");
    fixture.record(&target).expect("record");
    assert_eq!(fixture.contains(&target).unwrap(), true);
}

#[test]
fn reflects_canonical_path_regardless_of_relative_input() {
    let mut fixture = Fixture::new();
    let target = fixture.target("nested/target");
    fixture.record(&target).expect("record");
    let relative = FilePath::new("/state/nested/./target");
    assert_eq!(fixture.contains(&relative).unwrap(), true);
}

#[test]
fn returns_empty_when_store_root_absent() {
    let fixture = Fixture::new();
    assert!(fixture.list_all().is_empty());
}

#[test]
fn returns_empty_when_store_has_no_entries() {
    let mut fixture = Fixture::new();
    fixture.is_root_present = true;
    assert!(fixture.list_all().is_empty());
}

#[test]
fn returns_recorded_targets() {
    let mut fixture = Fixture::new();
    let target1 = fixture.target("target1");
    let target2 = fixture.target("target2");
    fixture.record(&target1).expect("record 1");
    fixture.record(&target2).expect("record 2");
    let mut list = texts(&fixture.list_all());
    list.sort();
    assert_eq!(list, vec!["/state/target1", "/state/target2"]);
}

#[test]
fn omits_entries_whose_targets_were_deleted() {
    let mut fixture = Fixture::new();
    let kept = fixture.target("kept");
    let deleted = fixture.target("deleted");
    fixture.record(&kept).expect("record kept");
    fixture.record(&deleted).expect("record deleted");
    fixture.targets.remove(&deleted.to_text());
    assert_eq!(texts(&fixture.list_all()), vec!["/state/kept"]);
}

#[test]
fn returns_zero_when_store_root_absent() {
    let mut fixture = Fixture::new();
    assert_eq!(fixture.clean(FileStoreCleanMode::EntriesOnly).unwrap(), 0);
}

#[test]
fn leaves_non_entry_files_untouched() {
    let mut fixture = Fixture::new();
    fixture.is_root_present = true;
    fixture.entries.insert("/state/store/stray".to_owned(), None);
    assert_eq!(fixture.clean(FileStoreCleanMode::EntriesOnly).unwrap(), 0);
    assert!(fixture.entries.contains_key("/state/store/stray"));
}

#[test]
fn returns_count_of_removed_stale_entries() {
    let mut fixture = Fixture::new();
    let kept = fixture.target("kept");
    let deleted = fixture.target("deleted");
    fixture.record(&kept).expect("record kept");
    fixture.record(&deleted).expect("record deleted");
    fixture.targets.remove(&deleted.to_text());
    assert_eq!(fixture.clean(FileStoreCleanMode::EntriesOnly).unwrap(), 1);
}

#[test]
fn removes_stale_entries_from_disk() {
    let mut fixture = Fixture::new();
    let deleted = fixture.target("deleted");
    fixture.record(&deleted).expect("record deleted");
    let entry_path = fixture.entry_path_for(&deleted);
    fixture.targets.remove(&deleted.to_text());
    assert!(fixture.clean(FileStoreCleanMode::EntriesOnly).is_ok());
    assert!(!fixture.entries.contains_key(&entry_path.to_text()));
}

#[test]
fn leaves_live_entries_untouched() {
    let mut fixture = Fixture::new();
    let kept = fixture.target("kept");
    fixture.record(&kept).expect("record kept");
    let entry_path = fixture.entry_path_for(&kept);
    assert!(fixture.clean(FileStoreCleanMode::EntriesOnly).is_ok());
    assert!(fixture.entries.contains_key(&entry_path.to_text()));
}

#[test]
fn with_companions_removes_dangling_companion() {
    let mut fixture = Fixture::new();
    let deleted = fixture.target("deleted");
    fixture.record(&deleted).expect("record deleted");
    fixture.write_companion(&deleted, ".hash", "content").expect("write companion");
    let companion = companion_path(&fixture.entry_path_for(&deleted), ".hash");
    fixture.targets.remove(&deleted.to_text());
    assert!(fixture.clean(FileStoreCleanMode::WithCompanions(&[".hash"])).is_ok());
    assert!(!fixture.companions.contains_key(&companion.to_text()));
}

#[test]
fn with_companions_leaves_live_companion() {
    let mut fixture = Fixture::new();
    let kept = fixture.target("kept");
    fixture.record(&kept).expect("record kept");
    fixture.write_companion(&kept, ".hash", "content").expect("write companion");
    let companion = companion_path(&fixture.entry_path_for(&kept), ".hash");
    assert!(fixture.clean(FileStoreCleanMode::WithCompanions(&[".hash"])).is_ok());
    assert!(fixture.companions.contains_key(&companion.to_text()));
}

#[test]
fn entries_only_leaves_companions() {
    let mut fixture = Fixture::new();
    let deleted = fixture.target("deleted");
    fixture.record(&deleted).expect("record deleted");
    fixture.write_companion(&deleted, ".hash", "content").expect("write companion");
    fixture.targets.remove(&deleted.to_text());
    assert_eq!(fixture.clean(FileStoreCleanMode::EntriesOnly).unwrap(), 1);
    assert_eq!(fixture.companions.len(), 1);
}

#[test]
fn clean_succeeds_when_companion_already_removed() {
    let mut fixture = Fixture::new();
    let target = fixture.target("target");
    fixture.record(&target).expect("record");
    fixture.targets.remove(&target.to_text());
    let result = fixture.clean(FileStoreCleanMode::WithCompanions(&[".hash"]));
    assert!(
        result.is_ok(),
        "clean must succeed when companion is missing: {result:?}"
    );
    assert_eq!(result.unwrap(), 1);
}

#[test]
fn returns_zero_when_entry_already_absent() {
    let mut fixture = Fixture::new();
    let target = fixture.target("target");
    let result = fixture.remove_with_companions(&target, &[".hash"]);
    assert_eq!(result.unwrap(), 0);
}

#[test]
fn returns_one_when_entry_removed() {
    let mut fixture = Fixture::new();
    let target = fixture.target("target");
    fixture.record(&target).expect("record");
    let result = fixture.remove_with_companions(&target, &[".hash"]);
    assert_eq!(result.unwrap(), 1);
}

#[test]
fn removes_entry_from_disk() {
    let mut fixture = Fixture::new();
    let target = fixture.target("target");
    fixture.record(&target).expect("record");
    let result = fixture.remove_with_companions(&target, &[]);
    assert!(result.is_ok());
    let path = fixture.entry_path_for(&target);
    assert!(!fixture.entries.contains_key(&path.to_text()));
}

#[test]
fn removes_companions_from_disk() {
    let mut fixture = Fixture::new();
    let target = fixture.target("target");
    fixture.record(&target).expect("record");
    fixture.write_companion(&target, ".hash", "content").expect("write");
    let companion = companion_path(&fixture.entry_path_for(&target), ".hash");
    let result = fixture.remove_with_companions(&target, &[".hash"]);
    assert!(result.is_ok());
    assert!(!fixture.companions.contains_key(&companion.to_text()));
}

#[test]
fn returns_one_even_if_companions_already_absent() {
    let mut fixture = Fixture::new();
    let target = fixture.target("target");
    fixture.record(&target).expect("record");
    let result = fixture.remove_with_companions(&target, &[".hash"]);
    assert_eq!(result.unwrap(), 1);
}

#[test]
fn other_removal_faults_are_errors() {
    let path = || FilePath::new("/store/abc");
    let denied = || IoFault::new(IoFaultKind::PermissionDenied, "permission denied");
    assert!(matches!(
        entry_removed(path(), Err(denied())),
        Err(FileStateStoreError::StoreIo { .. })
    ));
    assert!(matches!(
        companion_removed(path(), Err(denied())),
        Err(FileStateStoreError::CompanionRemove { .. })
    ));
    assert!(matches!(
        companion_read(path(), Err(denied())),
        Err(FileStateStoreError::CompanionRead { .. })
    ));
    assert!(matches!(
        stale_removed(path(), Err(not_found())),
        Err(FileStateStoreError::StoreIo { .. })
    ));
    assert!(matches!(
        entry_checked(path(), Err(denied())),
        Err(FileStateStoreError::StoreIo { .. })
    ));
}

#[test]
fn write_creates_companion_file() {
    let mut fixture = Fixture::new();
    let target = fixture.target("target");
    fixture.record(&target).expect("record");
    assert!(fixture.write_companion(&target, ".hash", "content").is_ok());
    let companion = companion_path(&fixture.entry_path_for(&target), ".hash");
    assert_eq!(
        fixture.companions.get(&companion.to_text()).map(String::as_str),
        Some("content")
    );
}

#[test]
fn write_errors_when_store_root_absent() {
    let mut fixture = Fixture::new();
    let target = fixture.target("target");
    let result = fixture.write_companion(&target, ".hash", "content");
    assert!(matches!(result, Err(FileStateStoreError::CompanionWrite { .. })));
}

#[test]
fn read_returns_contents_when_present() {
    let mut fixture = Fixture::new();
    let target = fixture.target("target");
    fixture.record(&target).expect("record");
    fixture.write_companion(&target, ".hash", "content").expect("write");
    let result = fixture.read_companion(&target, ".hash");
    assert_eq!(result.unwrap(), Some("content".to_owned()));
}

#[test]
fn read_returns_none_when_absent() {
    let mut fixture = Fixture::new();
    let target = fixture.target("target");
    fixture.record(&target).expect("record");
    let result = fixture.read_companion(&target, ".hash");
    assert_eq!(result.unwrap(), None);
}

#[test]
fn read_errors_on_nonexistent_target() {
    let fixture = Fixture::new();
    let missing = FilePath::new("/state/missing");
    let result = fixture.read_companion(&missing, ".hash");
    assert!(matches!(result, Err(FileStateStoreError::Canonicalize { .. })));
}

#[test]
fn store_errors_have_messages() {
    let path = || FilePath::new("/store/abc");
    let cases = [
        (
            FileStateStoreError::Canonicalize { path: path(), source: not_found() },
            "failed to canonicalize path /store/abc",
        ),
        (
            FileStateStoreError::StoreIo { path: path(), source: not_found() },
            "file state store operation failed for /store/abc",
        ),
        (
            FileStateStoreError::CompanionRead { path: path(), source: not_found() },
            "failed to read companion file /store/abc",
        ),
        (
            FileStateStoreError::CompanionWrite { path: path(), source: not_found() },
            "failed to write companion file /store/abc",
        ),
        (
            FileStateStoreError::CompanionRemove { path: path(), source: not_found() },
            "failed to remove companion file /store/abc",
        ),
    ];
    for (error, expected) in cases {
        assert_eq!(error.message(), expected);
    }
}

#[test]
fn live_and_stale_entries_exclude_each_other() {
    let entries = vec![
        StoredEntry {
            path: FilePath::new("/store/a"),
            recorded: Some(FilePath::new("/x")),
            is_present: true,
        },
        StoredEntry {
            path: FilePath::new("/store/b"),
            recorded: Some(FilePath::new("/y")),
            is_present: false,
        },
        StoredEntry { path: FilePath::new("/store/c"), recorded: None, is_present: false },
    ];
    assert_eq!(texts(&live_targets(&entries)), vec!["/x"]);
    assert_eq!(texts(&stale_entries(&entries)), vec!["/store/b"]);
}

#[test]
fn missing_directory_yields_one_missing_root_error_then_stops() {
    let missing = FilePath::new("/tmp/does-not-exist");
    let error = classify(&missing, 0, Some(missing.copy()), not_found());
    assert!(matches!(error, DirTreeError::MissingRoot { .. }));
    let (path, source) = error.into_parts();
    assert_eq!(path.to_text(), "/tmp/does-not-exist");
    assert_eq!(source.kind(), IoFaultKind::NotFound);
}

#[test]
fn missing_root_yields_a_missing_root_error() {
    let missing = FilePath::new("/tmp/gone");
    let error = classify(&missing, 0, None, not_found());
    assert!(matches!(error, DirTreeError::MissingRoot { .. }));
    assert_eq!(error.into_parts().0.to_text(), "/tmp/gone");
}

#[test]
fn unreadable_root_reports_root_inaccessible_never_missing_root() {
    let root = FilePath::new("/tmp/locked");
    let fault = IoFault::new(IoFaultKind::PermissionDenied, "permission denied");
    let error = classify(&root, 0, Some(root.copy()), fault);
    assert!(
        matches!(error, DirTreeError::RootInaccessible { .. }),
        "expected RootInaccessible, got {error:?}"
    );
}

#[test]
fn descendants_reports_an_unreadable_subdirectory_naming_it() {
    let root = FilePath::new("/tmp/root");
    let fault = IoFault::new(IoFaultKind::PermissionDenied, "permission denied");
    let error = classify(&root, 1, Some(FilePath::new("/tmp/root/locked")), fault);
    assert!(matches!(error, DirTreeError::NodeInaccessible { .. }));
    assert_eq!(error.source().kind(), IoFaultKind::PermissionDenied);
    assert_eq!(error.into_parts().0.to_text(), "/tmp/root/locked");
}

#[test]
fn filter_prunes_matching_subtrees_but_keeps_other_entries() {
    assert!(is_pruned(true, true));
    assert!(!is_pruned(true, false));
}

#[test]
fn filter_keeps_files_whose_name_matches_the_predicate() {
    assert!(!is_pruned(false, true));
    assert!(!is_pruned(false, false));
}

#[test]
fn messages_are_lowercase_without_trailing_punctuation() {
    let root = FilePath::new("/root");
    let node = FilePath::new("/root/a");
    let denied = || IoFault::new(IoFaultKind::PermissionDenied, "permission denied");
    let errors = [
        classify(&root, 0, Some(root.copy()), not_found()),
        classify(&root, 0, Some(root.copy()), denied()),
        classify(&root, 1, Some(node.copy()), denied()),
    ];
    for error in &errors {
        let message = error.message();
        let first = message.chars().next().expect("non-empty message");
        assert!(first.is_lowercase(), "{message}");
        assert!(!message.ends_with('.'), "{message}");
    }
}

#[test]
fn walk_failures_become_store_failures() {
    let root = FilePath::new("/store");
    let error = store_error(classify(&root, 0, Some(root.copy()), not_found()));
    assert_eq!(error.message(), "file state store operation failed for /store");
}

#[test]
fn deterministic_for_same_content() {
    let first = Blake3FileHash::from_bytes(b"hello");
    let second = Blake3FileHash::from("hello");
    assert!(first.same(&second));
}

#[test]
fn differs_when_content_changes() {
    let first = Blake3FileHash::from_bytes(b"hello");
    let second = Blake3FileHash::from_bytes(b"goodbye");
    assert!(!first.same(&second));
}

#[test]
fn implements_display_formatting() {
    let hash = Blake3FileHash::from_bytes(b"hello");
    let display_string = hash.to_text();
    assert_eq!(display_string.len(), 64);
    let expected_raw_hash = blake3::hash(b"hello").to_hex().to_string();
    assert_eq!(display_string, expected_raw_hash);
}

#[test]
fn deterministic_for_same_path_string() {
    let first = Blake3PathHash::from("/project/.traces/config.toml");
    let second = Blake3PathHash::from("/project/.traces/config.toml");
    assert!(first.same(&second));
}

#[test]
fn differs_for_different_path_strings() {
    let first = Blake3PathHash::from("/project/first");
    let second = Blake3PathHash::from("/project/second");
    assert!(!first.same(&second));
}

#[test]
fn matches_blake3_hex_formula_for_path_bytes() {
    let path = "/project/.traces/config.toml";
    let hash = Blake3PathHash::from(path);
    let expected_hex = blake3::hash(path.as_bytes()).to_hex().to_string();
    assert_eq!(hash.as_str(), expected_hex.as_str());
}

#[test]
fn exposes_as_str_for_inner_hash() {
    let path = "/project/.traces/config.toml";
    let hash = Blake3PathHash::from(path);
    let hash_str = hash.as_str();
    let expected_hex = blake3::hash(path.as_bytes()).to_hex().to_string();
    assert_eq!(hash_str, expected_hex);
}
