//! Building, refreshing and storing the workspace index.

use std::collections::BTreeMap;

use traces::dirtree::DirTreeError;
use traces::fault::{IoFault, IoFaultKind};
use traces::file::{FileBase, FileFormat, FileNameError};
use traces::index::builder::{
    build_fresh, build_with_cache, cache_states, is_outlinks_changed, reconcile_note,
    IndexBuilderError, NoteCacheState, RefreshCache, RefreshedIndex,
};
use traces::index::codec::{path_from_bytes, path_to_bytes};
use traces::index::delta::{FileDelta, InlinkDelta};
use traces::index::entry::{
    match_notes, redistribute_inlinks, FileEntry, RowIndex, WorkspaceIndex,
};
use traces::index::epochs::{
    ClassEpoch, ParseEpoch, PersistedEpochs, StatusSetting, TaskConfig,
};
use traces::index::error::{IndexError, StoreError};
use traces::index::inlinks::{InlinkMap, LinkEntry};
use traces::index::plan::{IndexUpdate, RefreshPlan};
use traces::index::refresh::{merge_refreshed_notes, NoteScope, RefreshReport};
use traces::index::scan::{collect_files, is_indexed, ScannedNode};
use traces::index::sort::SortedByPath;
use traces::instant::DateTimeValue;
use traces::note::document::{parse_markdown, Note};
use traces::note::value::FieldValue;
use traces::path::FilePath;

fn path(text: &str) -> FilePath {
    FilePath::new(text)
}

fn texts(paths: &[FilePath]) -> Vec<String> {
    paths.iter().map(FilePath::to_text).collect()
}

fn file_texts(files: &[FileBase]) -> Vec<String> {
    files.iter().map(|file| file.path().to_text()).collect()
}

fn note(at: &str, source: &str) -> Note {
    parse_markdown(path(at), source)
}

/// A workspace in memory: contents and a clock of writes.
#[derive(Default)]
struct Disk {
    files: BTreeMap<String, (String, i64)>,
    clock: i64,
}

impl Disk {
    fn write(&mut self, at: &str, content: &str) {
        self.clock += 1;
        self.files.insert(at.to_owned(), (content.to_owned(), self.clock));
    }

    fn remove(&mut self, at: &str) {
        self.files.remove(at);
    }

    fn scan(&self) -> SortedByPath<FileBase> {
        collect_files(
            self.files
                .iter()
                .rev()
                .map(|(at, (content, written))| ScannedNode {
                    file: FileBase::from_metadata(
                        path(at),
                        None,
                        DateTimeValue { seconds: *written, nanos: 0 },
                        content.len() as u64,
                    ),
                    is_file: true,
                })
                .collect(),
        )
    }

    fn parse(&self, file: &FileBase) -> Option<Note> {
        if file.format() != FileFormat::Note {
            return None;
        }
        let (content, _) = self.files.get(&file.path().to_text())?;
        Some(parse_markdown(file.path().copy(), content))
    }

    fn build(&self) -> WorkspaceIndex {
        let files = self.scan();
        let notes = files.as_rows().iter().map(|file| self.parse(file)).collect();
        build_fresh(files, notes)
    }

    fn notes(&self) -> SortedByPath<Note> {
        SortedByPath::sorted(
            self.scan().as_rows().iter().filter_map(|file| self.parse(file)).collect(),
        )
    }

    fn cache(&self) -> RefreshCache {
        let index = self.build();
        let links = index
            .entries()
            .iter()
            .map(|entry| LinkEntry {
                target: entry.file().path().copy(),
                sources: entry.inlinks().iter().map(FilePath::copy).collect(),
            })
            .collect();
        RefreshCache::new(self.scan(), InlinkMap::from_raw(links), self.notes())
    }

    fn refresh(&self, cache: RefreshCache) -> RefreshedIndex {
        let files = self.scan();
        let (delta, _) = cache.diff_files(&files);
        let states = cache_states(files.as_rows(), delta.upserted());
        let parsed = files
            .as_rows()
            .iter()
            .zip(states)
            .map(|(file, state)| match state {
                NoteCacheState::Upserted => self.parse(file),
                NoteCacheState::Fresh => None,
            })
            .collect();
        build_with_cache(files, cache, parsed).expect("build")
    }
}

fn note_count(index: &WorkspaceIndex) -> usize {
    index.entries().iter().filter(|entry| entry.note().is_some()).count()
}

fn linked_count(index: &WorkspaceIndex) -> usize {
    index.entries().iter().filter(|entry| !entry.inlinks().is_empty()).count()
}

fn task_count(index: &WorkspaceIndex, at: &str) -> Option<usize> {
    index
        .entries()
        .iter()
        .find(|entry| entry.file().path().same(&path(at)))
        .and_then(FileEntry::note)
        .map(|note| note.tasks().len())
}

fn links(entries: &[(&str, &[&str])]) -> InlinkMap {
    InlinkMap::from_raw(
        entries
            .iter()
            .map(|(target, sources)| LinkEntry {
                target: path(target),
                sources: sources.iter().map(|source| path(source)).collect(),
            })
            .collect(),
    )
}

fn sized(at: &str, size: u64) -> FileBase {
    FileBase::from_metadata(path(at), None, DateTimeValue { seconds: 0, nanos: 0 }, size)
}

fn sorted(files: Vec<FileBase>) -> SortedByPath<FileBase> {
    SortedByPath::sorted(files)
}

// Building and refreshing.

#[test]
fn new_produces_sorted_records() {
    let mut disk = Disk::default();
    disk.write("b.md", "# B");
    disk.write("a.md", "# A");
    let index = disk.build();
    let paths: Vec<String> =
        index.entries().iter().map(|entry| entry.file().path().to_text()).collect();
    assert_eq!(paths, vec!["a.md", "b.md"]);
}

#[test]
fn new_parses_markdown_notes() {
    let mut disk = Disk::default();
    disk.write("note.md", "- [ ] task");
    disk.write("readme.txt", "text");
    let index = disk.build();
    assert_eq!(index.entries().len(), 2);
    assert_eq!(note_count(&index), 1);
    let found = index
        .entries()
        .iter()
        .find(|entry| entry.file().path().same(&path("note.md")))
        .and_then(FileEntry::note)
        .map(|note| note.path().to_text());
    assert_eq!(found, Some("note.md".to_owned()));
}

#[test]
fn reused_index_preserves_inlinks_when_nothing_changes() {
    let mut disk = Disk::default();
    disk.write("a.md", "---\ntitle: A\n---\nLink to [[b]].");
    disk.write("b.md", "---\ntitle: B\n---\nBody.");
    let first_inlinks = linked_count(&disk.build());
    let second = disk.refresh(disk.cache());
    assert_eq!(
        linked_count(&second.index),
        first_inlinks,
        "inlinks must be reused when nothing changed"
    );
    assert_eq!(first_inlinks, 1);
    assert!(second.links.is_none());
    assert!(second.delta.is_empty());
}

#[test]
fn deleted_non_note_file_does_not_mark_dirty() {
    let mut disk = Disk::default();
    disk.write("note.md", "---\ntitle: Note\n---\nBody.");
    disk.write("image.png", "fake");
    let first_inlinks = linked_count(&disk.build());
    let cache = disk.cache();
    disk.remove("image.png");
    let second = disk.refresh(cache);
    assert_eq!(
        linked_count(&second.index),
        first_inlinks,
        "deleting non-note file must not recompute inlinks"
    );
    assert!(second.links.is_none());
}

#[test]
fn skips_parse_for_unchanged_records() {
    let mut disk = Disk::default();
    disk.write("note.md", "---\ntitle: Test\n---\nBody.");
    let first_len = note_count(&disk.build());
    let second = disk.refresh(disk.cache());
    assert_eq!(first_len, note_count(&second.index));
}

#[test]
fn reparse_when_record_content_changes() {
    let mut disk = Disk::default();
    disk.write("note.md", "---\ntitle: V1\n---\nBody.");
    let cache = disk.cache();
    disk.write("note.md", "---\ntitle: V2\n---\nBody.");
    let second = disk.refresh(cache);
    let found = second.index.entries().iter().find_map(FileEntry::note).expect("note must exist");
    let frontmatter = found.frontmatter().expect("frontmatter");
    let title = frontmatter
        .fields()
        .iter()
        .find(|field| field.key().is_match("title"))
        .map(|field| field.value());
    assert!(matches!(title, Some(FieldValue::String(text)) if text == "V2"));
}

#[test]
fn removes_deleted_notes_from_index() {
    let mut disk = Disk::default();
    disk.write("note.md", "---\ntitle: Test\n---\nBody.");
    assert_eq!(note_count(&disk.build()), 1);
    let cache = disk.cache();
    disk.remove("note.md");
    let second = disk.refresh(cache);
    assert_eq!(note_count(&second.index), 0, "deleted note must be removed");
    assert_eq!(file_texts(second.delta.deleted()), vec!["note.md"]);
    assert!(second.links.is_some());
}

#[test]
fn includes_newly_added_notes() {
    let mut disk = Disk::default();
    disk.write("a.md", "---\ntitle: A\n---\nBody.");
    assert_eq!(note_count(&disk.build()), 1);
    let cache = disk.cache();
    disk.write("b.md", "---\ntitle: B\n---\nBody.");
    let second = disk.refresh(cache);
    assert_eq!(note_count(&second.index), 2, "new note must be included");
}

#[test]
fn preserves_task_content_for_unchanged_records() {
    let mut disk = Disk::default();
    disk.write("note.md", "- [ ] task");
    let index = disk.refresh(disk.cache()).index;
    assert_eq!(task_count(&index, "note.md"), Some(1));
}

#[test]
fn reparses_task_content_when_record_changes() {
    let mut disk = Disk::default();
    disk.write("note.md", "- [ ] task");
    let cache = disk.cache();
    disk.write("note.md", "- [ ] task\n- [x] done");
    let index = disk.refresh(cache).index;
    assert_eq!(task_count(&index, "note.md"), Some(2));
}

#[test]
fn upserted_non_note_file_between_notes_does_not_stall_the_upserted_pointer() {
    let mut disk = Disk::default();
    disk.write("a.md", "# A");
    disk.write("m.png", "fake");
    disk.write("z.md", "# Z");
    let cache = disk.cache();
    disk.write("m.png", "fake, changed");
    let second = disk.refresh(cache);
    assert_eq!(note_count(&second.index), 2);
}

#[test]
fn relinked_notes_are_resolved_anew() {
    let mut disk = Disk::default();
    disk.write("a.md", "[[b]]");
    disk.write("b.md", "# B");
    disk.write("c.md", "# C");
    let cache = disk.cache();
    disk.write("a.md", "[[c]]");
    let second = disk.refresh(cache);
    let change = second.links.expect("links changed");
    let upserted: Vec<(String, String)> =
        change.upserted().iter().map(|(t, s)| (t.to_text(), s.to_text())).collect();
    assert_eq!(upserted, vec![("c.md".to_owned(), "a.md".to_owned())]);
    let deleted: Vec<(String, String)> =
        change.deleted().iter().map(|(t, s)| (t.to_text(), s.to_text())).collect();
    assert_eq!(deleted, vec![("b.md".to_owned(), "a.md".to_owned())]);
}

#[test]
fn reworded_notes_keep_their_links() {
    let mut disk = Disk::default();
    disk.write("a.md", "[[b]]");
    disk.write("b.md", "# B");
    let cache = disk.cache();
    disk.write("a.md", "see [[b|the other]] and [[b]]");
    let second = disk.refresh(cache);
    assert!(second.links.is_none());
    assert_eq!(linked_count(&second.index), 1);
}

fn same_rows(one: &WorkspaceIndex, two: &WorkspaceIndex) -> bool {
    one.entries().len() == two.entries().len()
        && one.entries().iter().zip(two.entries()).all(|(a, b)| {
            a.file().same(b.file())
                && texts(a.inlinks()) == texts(b.inlinks())
                && a.note().map(|n| n.outlinks().len()) == b.note().map(|n| n.outlinks().len())
        })
}

#[test]
fn a_refreshed_index_is_a_fresh_index() {
    let mut disk = Disk::default();
    disk.write("n.md", "see [[x.png]] and [[other]]");
    disk.write("other.md", "# Other");
    assert!(same_rows(&disk.refresh(disk.cache()).index, &disk.build()));

    let cache = disk.cache();
    disk.write("x.png", "pixels");
    let added = disk.refresh(cache);
    assert!(added.links.is_some());
    assert!(same_rows(&added.index, &disk.build()));
    assert_eq!(linked_count(&added.index), 2);

    let cache = disk.cache();
    disk.remove("x.png");
    let removed = disk.refresh(cache);
    assert!(same_rows(&removed.index, &disk.build()));
    assert_eq!(linked_count(&removed.index), 1);
}

#[test]
fn a_changed_note_has_to_be_parsed() {
    let mut disk = Disk::default();
    disk.write("a.md", "old");
    let cache = disk.cache();
    disk.write("a.md", "newer text");
    let result = build_with_cache(disk.scan(), cache, vec![None]);
    assert!(matches!(result, Err(IndexBuilderError::MissingNote { .. })));
}

#[test]
fn a_file_without_any_note_is_missing() {
    let files = sorted(vec![FileBase::note_for_test("a.md")]);
    let cache = RefreshCache::new(
        sorted(vec![FileBase::note_for_test("a.md")]),
        InlinkMap::default(),
        SortedByPath::sorted(Vec::new()),
    );
    let result = build_with_cache(files, cache, vec![None]);
    let Err(IndexBuilderError::MissingNote { path }) = result else {
        panic!("a note is missing");
    };
    assert_eq!(path.to_text(), "a.md");
}

#[test]
fn reuses_via_point_lookup_when_fresh() {
    let file = FileBase::note_for_test("a.md");
    let result = reconcile_note(&file, NoteCacheState::Fresh, None, Some(note("a.md", "content")));
    let (_, outlinks_changed) = result.expect("reconcile succeeds");
    assert!(!outlinks_changed);
}

#[test]
fn reparses_and_has_nothing_to_backdate_against_when_upserted_and_new() {
    let file = FileBase::note_for_test("a.md");
    let result = reconcile_note(&file, NoteCacheState::Upserted, Some(note("a.md", "content")), None);
    let (found, outlinks_changed) = result.expect("reconcile succeeds");
    assert_eq!(found.path().to_text(), "a.md");
    assert!(outlinks_changed);
}

#[test]
fn a_note_is_asked_for_whatever_the_format() {
    let file = FileBase::for_test("a.png", FileFormat::Other);
    let result = reconcile_note(&file, NoteCacheState::Upserted, None, None);
    let Err(IndexBuilderError::MissingNote { path }) = result else {
        panic!("a note is missing");
    };
    assert_eq!(path.to_text(), "a.png");
}

#[test]
fn files_of_other_formats_have_no_note() {
    let files = sorted(vec![FileBase::for_test("a.png", FileFormat::Other)]);
    let cache = RefreshCache::new(
        sorted(Vec::new()),
        InlinkMap::default(),
        SortedByPath::sorted(Vec::new()),
    );
    let built = build_with_cache(files, cache, vec![None]).expect("no note is asked for");
    assert!(built.index.entries()[0].note().is_none());
}

#[test]
fn links_change_with_their_targets_alone() {
    let first = note("a.md", "[[b]] [[c]]");
    assert!(!is_outlinks_changed(&note("a.md", "[[c|see]] [[b]] [[b]]"), &first));
    assert!(is_outlinks_changed(&note("a.md", "[[b]]"), &first));
}

// Stored keys and rows.

#[test]
fn decodes_valid_utf8() {
    assert_eq!(path_from_bytes(b"hello.md").to_text(), "hello.md");
}

#[test]
fn stored_paths_are_read_back_as_written() {
    for text in ["a//b/./c.md/", "/a", "", "./x"] {
        let stored = path_to_bytes(&path(text));
        assert_eq!(stored, text.as_bytes());
        assert_eq!(path_from_bytes(&stored).to_text(), text);
    }
}

#[test]
fn falls_back_to_lossy_on_invalid_utf8() {
    assert_eq!(path_from_bytes(b"hello\xFF.md").to_text(), "hello\u{FFFD}.md");
}

#[test]
fn keys_read_back() {
    for text in ["a/b.md", "über/straße.md", "", "/root.md"] {
        let key = path_to_bytes(&path(text));
        assert_eq!(key, text.as_bytes());
        assert!(path_from_bytes(&key).same(&path(text)));
    }
}

#[test]
fn round_trips_parse_epoch() {
    let tasks = TaskConfig::default();
    let original = ParseEpoch::from_config(&tasks);
    let bytes = original.encode().expect("encode parse epoch");
    let decoded = ParseEpoch::decode(&bytes).expect("decode parse epoch");
    assert!(original.same(&decoded));
    assert!(!bytes.is_empty());
}

#[test]
fn round_trips_class_epoch() {
    let original = ClassEpoch::from_class_field("custom_kind");
    let bytes = original.encode().expect("encode class epoch");
    assert_eq!(bytes, b"\x0bcustom_kind");
    let decoded = ClassEpoch::decode(&bytes).expect("decode class epoch");
    assert_eq!(original.as_str(), decoded.as_str());
    assert_eq!(decoded.as_str(), "custom_kind");
}

#[test]
fn garbage_bytes_fail_decode() {
    let parse_err = ParseEpoch::decode(&[0xFF, 0xFF, 0xFF])
        .expect_err("garbage parse bytes fail decode");
    assert!(matches!(parse_err, StoreError::Deserialize { .. }));
    let class_err = ClassEpoch::decode(&[0xFF, 0xFF, 0xFF])
        .expect_err("garbage class bytes fail decode");
    assert!(matches!(class_err, StoreError::Deserialize { .. }));
    assert_eq!(
        class_err.message(),
        "failed to deserialize the row for epochs/class"
    );
}

#[test]
fn unknown_epoch_never_matches_real_config() {
    let tasks = TaskConfig::default();
    let current = PersistedEpochs::current(&tasks, "class");
    let unknown = PersistedEpochs::unknown();
    assert!(!unknown.is_match(&current));
    assert!(!unknown.is_parse_match(&current));
    assert!(!unknown.is_class_match(&current));
}

#[test]
fn statuses_sorted_by_symbol_is_order_stable() {
    let tasks = TaskConfig::default();
    let epoch1 = ParseEpoch::from_config(&tasks);
    let epoch2 = ParseEpoch::from_config(&tasks);
    assert!(epoch1.same(&epoch2));
}

#[test]
fn the_order_under_one_marker_counts() {
    let epoch = |marks: [(&str, bool); 3]| {
        let statuses = marks.iter().map(|(symbol, done)| StatusSetting::new(symbol, *done));
        ParseEpoch::from_config(&TaskConfig::new(statuses.collect(), Vec::new()))
    };
    let one = epoch([("x", true), (" ", false), ("x", false)]);
    assert!(one.same(&epoch([(" ", false), ("x", true), ("x", false)])));
    assert!(!one.same(&epoch([("x", false), (" ", false), ("x", true)])));
}

#[test]
fn the_order_of_settings_does_not_count() {
    let config = |symbols: [(&str, bool); 2], tags: [&str; 3]| {
        TaskConfig::new(
            symbols.iter().map(|(symbol, done)| StatusSetting::new(symbol, *done)).collect(),
            tags.iter().map(|tag| (*tag).to_owned()).collect(),
        )
    };
    let one = ParseEpoch::from_config(&config([(" ", false), ("x", true)], ["b", "a", "b"]));
    let two = ParseEpoch::from_config(&config([("x", true), (" ", false)], ["a", "b", "a"]));
    assert!(one.same(&two));
    let other = ParseEpoch::from_config(&config([("x", false), (" ", false)], ["a", "b", "a"]));
    assert!(!one.same(&other));
}

#[test]
fn epochs_match_by_every_part() {
    let tasks = TaskConfig::default();
    let current = PersistedEpochs::current(&tasks, "class");
    let same = PersistedEpochs::new(
        ParseEpoch::from_config(&tasks),
        ClassEpoch::from_class_field("class"),
    );
    assert!(same.is_match(&current));
    let other = PersistedEpochs::current(&tasks, "kind");
    assert!(other.is_parse_match(&current));
    assert!(!other.is_class_match(&current));
    assert!(!other.is_match(&current));
}

// Differences.

#[test]
fn delta_reports_a_default_delta_as_empty() {
    let delta = FileDelta::default();
    assert!(delta.is_empty());
}

#[test]
fn reports_a_default_delta_as_empty() {
    let delta = InlinkDelta::default();
    assert!(delta.is_empty());
}

#[test]
fn returns_deleted_note_when_note_is_removed() {
    let mut disk = Disk::default();
    disk.write("a.md", "content");
    let previous = disk.scan();
    disk.remove("a.md");
    let delta = FileDelta::compute(&disk.scan(), &previous);
    assert_eq!(file_texts(delta.deleted()), vec!["a.md"]);
}

#[test]
fn returns_deleted_file_when_non_note_is_removed() {
    let mut disk = Disk::default();
    disk.write("image.png", "fake");
    let previous = disk.scan();
    disk.remove("image.png");
    let delta = FileDelta::compute(&disk.scan(), &previous);
    assert_eq!(file_texts(delta.deleted()), vec!["image.png"]);
}

#[test]
fn returns_upserted_note_without_deletion_when_contents_change() {
    let mut disk = Disk::default();
    disk.write("a.md", "v1");
    let previous = disk.scan();
    disk.write("a.md", "v2, longer content");
    let delta = FileDelta::compute(&disk.scan(), &previous);
    assert_eq!(file_texts(delta.upserted()), vec!["a.md"]);
    assert!(delta.deleted().is_empty());
}

#[test]
fn treats_identical_unsorted_inputs_as_unchanged() {
    let mut disk = Disk::default();
    disk.write("a.md", "same");
    disk.write("b.md", "same");
    assert!(FileDelta::compute(&disk.scan(), &disk.scan()).is_empty());
}

#[test]
fn detects_added_and_removed_inlinks() {
    let previous = links(&[("a.md", &["x.md"])]);
    let current = links(&[("b.md", &["x.md"])]);
    let delta = InlinkDelta::compute(&current, &previous);
    let pairs = |edges: &[(FilePath, FilePath)]| -> Vec<(String, String)> {
        edges.iter().map(|(t, s)| (t.to_text(), s.to_text())).collect()
    };
    assert_eq!(pairs(delta.upserted()), vec![("b.md".to_owned(), "x.md".to_owned())]);
    assert_eq!(pairs(delta.deleted()), vec![("a.md".to_owned(), "x.md".to_owned())]);
}

#[test]
fn ignores_source_order_differences() {
    let previous = links(&[("a.md", &["x.md", "y.md"])]);
    let current = links(&[("a.md", &["y.md", "x.md"])]);
    assert!(InlinkDelta::compute(&current, &previous).is_empty());
}

#[test]
fn deltas_lead_from_one_scan_to_the_next() {
    let mut disk = Disk::default();
    disk.write("a.md", "1");
    disk.write("b.md", "1");
    disk.write("c.md", "1");
    let previous = disk.scan();
    disk.remove("a.md");
    disk.write("b.md", "2");
    disk.write("d.md", "1");
    let delta = FileDelta::compute(&disk.scan(), &previous);
    assert_eq!(file_texts(delta.upserted()), vec!["b.md", "d.md"]);
    assert_eq!(file_texts(delta.deleted()), vec!["a.md"]);
}

// File records.

#[test]
fn splits_name_from_extension() {
    let record = FileBase::from_metadata(
        path("/work/notes/todo.md").relative_to(&path("/work")),
        None,
        DateTimeValue::now(),
        7,
    );
    assert_eq!(record.name().as_str(), "todo");
    assert_eq!(record.path().to_text(), "notes/todo.md");
    assert_eq!(record.folder().to_text(), "notes");
    assert_eq!(record.size(), 7);
}

#[test]
fn file_directly_under_root_has_an_empty_folder() {
    assert_eq!(FileBase::note_for_test("readme.md").folder().to_text(), "");
}

#[test]
fn file_with_no_extension_keeps_its_full_name() {
    let record = FileBase::for_test("LICENSE", FileFormat::Other);
    assert_eq!(record.name().as_str(), "LICENSE");
}

#[test]
fn modified_at_matches_the_filesystem_timestamp() {
    let expected = DateTimeValue { seconds: 1_700_000_000, nanos: 123 };
    let record = FileBase::from_metadata(path("note.md"), None, expected, 7);
    assert_eq!(record.modified_at(), expected);
}

#[test]
fn created_at_falls_back_to_modified_at_when_unsupported() {
    let modified = DateTimeValue { seconds: 1_700_000_000, nanos: 123 };
    let record = FileBase::from_metadata(path("note.md"), None, modified, 7);
    assert_eq!(record.created_at_or_modified(), record.modified_at());
}

#[test]
fn markdown_extensions_are_classified_as_notes() {
    for at in ["note.md", "note.MARKDOWN"] {
        let record = FileBase::from_metadata(path(at), None, DateTimeValue::now(), 7);
        assert_eq!(record.format(), FileFormat::Note);
    }
}

#[test]
fn non_markdown_files_are_classified_as_other() {
    let record = FileBase::from_metadata(path("config.toml"), None, DateTimeValue::now(), 7);
    assert_eq!(record.format(), FileFormat::Other);
}

// Entries.

#[test]
fn entry_size_stays_under_target() {
    assert!(
        std::mem::size_of::<FileEntry>() <= 160,
        "FileEntry grew past its target: Note must stay boxed"
    );
}

#[test]
fn entry_at_agrees_with_entries_index() {
    let mut disk = Disk::default();
    disk.write("a.md", "# A");
    disk.write("b.txt", "plain text");
    disk.write("c.md", "# C");
    let index = disk.build();
    for (i, entry) in index.entries().iter().enumerate() {
        let found = index.entry_at(RowIndex::new(i));
        assert!(found.file().same(entry.file()));
        assert_eq!(found.note().is_some(), entry.note().is_some());
    }
}

#[test]
fn note_returns_none_for_a_non_markdown_file() {
    let mut disk = Disk::default();
    disk.write("plain.txt", "no frontmatter");
    let index = disk.build();
    assert_eq!(index.entries().len(), 1);
    assert!(index.entry_at(RowIndex::new(0)).note().is_none());
}

#[test]
fn non_markdown_file_can_carry_inlinks() {
    let mut disk = Disk::default();
    disk.write("attachment.png", "fake");
    disk.write("note.md", "# Note\n\n[[attachment.png]]\n");
    let index = disk.build();
    let png_entry = index
        .entries()
        .iter()
        .find(|entry| entry.file().path().same(&path("attachment.png")))
        .expect("attachment entry exists");
    assert!(png_entry.note().is_none());
    assert_eq!(texts(png_entry.inlinks()), vec!["note.md"]);
}

#[test]
fn redistributes_inlinks_and_keeps_rows_findable_by_path() {
    let rows = ["a.md", "b.md"]
        .iter()
        .map(|at| FileEntry::new(FileBase::note_for_test(at), None))
        .collect();
    let map = links(&[("a.md", &["b.md"]), ("missing.md", &["a.md"])]);
    let entries = redistribute_inlinks(SortedByPath::sorted(rows), map);
    let at = |text: &str| entries.binary_search_by_path(&path(text));
    let a = at("a.md").expect("a.md still findable");
    assert_eq!(texts(entries.as_rows()[a].inlinks()), vec!["b.md"]);
    let b = at("b.md").expect("b.md still findable");
    assert!(entries.as_rows()[b].inlinks().is_empty());
    assert!(at("missing.md").is_err());
}

#[test]
fn assembles_index_from_note_tuples() {
    let index =
        WorkspaceIndex::new_test(&[("a.md", "# A\nLink to [[b]]"), ("b.md", "# B")]);
    assert_eq!(index.entries().len(), 2);
    let a = index.entry_at(RowIndex::new(0));
    assert_eq!(a.file().name().as_str(), "a");
    assert!(a.note().is_some());
    let b = index.entry_at(RowIndex::new(1));
    assert_eq!(b.file().name().as_str(), "b");
    assert_eq!(b.inlinks().len(), 1);
}

#[test]
fn files_get_their_own_notes() {
    let files = vec![
        FileBase::note_for_test("a.md"),
        FileBase::for_test("b.png", FileFormat::Other),
        FileBase::note_for_test("c.md"),
    ];
    let matched = match_notes(&files, vec![note("a.md", "# A"), note("c.md", "# C")]);
    let found: Vec<Option<String>> =
        matched.iter().map(|note| note.as_ref().map(|n| n.path().to_text())).collect();
    assert_eq!(found, vec![Some("a.md".to_owned()), None, Some("c.md".to_owned())]);
}

#[test]
fn sorted_rows_are_found_by_path() {
    let files = sorted(vec![
        FileBase::note_for_test("c.md"),
        FileBase::note_for_test("a.md"),
        FileBase::note_for_test("b/a.md"),
    ]);
    assert_eq!(file_texts(files.as_rows()), vec!["a.md", "b/a.md", "c.md"]);
    assert_eq!(files.binary_search_by_path(&path("b/a.md")), Ok(1));
    assert_eq!(files.binary_search_by_path(&path("b.md")), Err(2));
    assert_eq!(files.binary_search_by_path(&path("")), Err(0));
}

// Scanning.

#[test]
fn scans_nested_files_in_sorted_order() {
    let mut disk = Disk::default();
    disk.write("b/one.md", "1");
    disk.write("a.md", "2");
    assert_eq!(file_texts(disk.scan().as_rows()), vec!["a.md", "b/one.md"]);
}

#[test]
fn skips_git_directories() {
    let mut disk = Disk::default();
    disk.write(".git/HEAD", "ref: refs/heads/main");
    disk.write("note.md", "content");
    assert_eq!(file_texts(disk.scan().as_rows()), vec!["note.md"]);
}

#[test]
fn skips_its_own_index_database_file() {
    let mut disk = Disk::default();
    disk.write(".traces/index.redb", "redb-bytes");
    disk.write("note.md", "content");
    assert_eq!(file_texts(disk.scan().as_rows()), vec!["note.md"]);
}

#[test]
fn skips_symlinks_entirely() {
    let files = collect_files(vec![
        ScannedNode { file: FileBase::note_for_test("link.md"), is_file: false },
        ScannedNode { file: FileBase::note_for_test("note.md"), is_file: true },
    ]);
    assert_eq!(file_texts(files.as_rows()), vec!["note.md"]);
}

#[test]
fn empty_root_yields_no_records() {
    assert_eq!(Disk::default().scan().as_rows().len(), 0);
}

#[test]
fn a_file_called_git_is_indexed() {
    assert!(is_indexed(&path("a/.git"), true));
    assert!(!is_indexed(&path("a/.git/config"), true));
    assert!(!is_indexed(&path(".traces/index.redb"), true));
    assert!(is_indexed(&path(".traces/config.toml"), true));
}

// Refresh plans.

#[test]
fn counts_upserts_deletes_and_link_edges() {
    let delta = FileDelta::compute(
        &sorted(vec![FileBase::note_for_test("a.md")]),
        &sorted(vec![FileBase::note_for_test("b.md")]),
    );
    let inlink_delta = InlinkDelta::compute(&InlinkMap::default(), &InlinkMap::default());
    let update = IndexUpdate::new(
        sorted(Vec::new()),
        delta,
        InlinkMap::default(),
        NoteScope::Modified(SortedByPath::sorted(Vec::new())),
        inlink_delta,
    );
    assert_eq!(update.report(), RefreshReport::new(1, 1, 0));
}

fn note_paths(notes: &[&Note]) -> Vec<String> {
    notes.iter().map(|note| note.path().to_text()).collect()
}

#[test]
fn returns_all_modified_notes_for_upsert() {
    let notes = SortedByPath::sorted(vec![note("a.md", "# A"), note("b.md", "# B")]);
    let scope = NoteScope::Modified(notes);
    let upserted = vec![FileBase::note_for_test("a.md")];
    assert_eq!(note_paths(&scope.to_upsert(&upserted)), vec!["a.md", "b.md"]);
}

#[test]
fn returns_complete_notes_matching_upserted_paths() {
    let notes = SortedByPath::sorted(vec![note("a.md", "# A"), note("c.md", "# C")]);
    let scope = NoteScope::Complete(notes);
    let upserted = vec![FileBase::note_for_test("a.md"), FileBase::note_for_test("b.md")];
    assert_eq!(note_paths(&scope.to_upsert(&upserted)), vec!["a.md"]);
}

#[test]
fn returns_no_complete_notes_when_upserted_paths_miss() {
    let scope = NoteScope::Complete(SortedByPath::sorted(vec![note("a.md", "# A")]));
    let upserted = vec![FileBase::note_for_test("b.md")];
    assert!(scope.to_upsert(&upserted).is_empty());
}

#[test]
fn reports_keep_their_counts() {
    let report = RefreshReport::new(1, 2, 3);
    assert_eq!(report.upserted_count(), 1);
    assert_eq!(report.deleted_count(), 2);
    assert_eq!(report.links_modified_count(), 3);
    assert_eq!(RefreshReport::default(), RefreshReport::new(0, 0, 0));
}

#[test]
fn refreshed_notes_replace_stored_ones() {
    let stored = SortedByPath::sorted(vec![
        note("a.md", "[[old]]"),
        note("b.md", "# B"),
        note("c.md", "# C"),
    ]);
    let delta = FileDelta::compute(
        &sorted(vec![
            sized("a.md", 2),
            sized("b.md", 7),
            sized("d.md", 7),
        ]),
        &sorted(vec![
            sized("a.md", 1),
            sized("b.md", 7),
            sized("c.md", 7),
        ]),
    );
    let modified = SortedByPath::sorted(vec![note("a.md", "[[new]]"), note("d.md", "# D")]);
    let merged = merge_refreshed_notes(stored, &delta, modified);
    let found: Vec<String> =
        merged.as_rows().iter().map(|note| note.path().to_text()).collect();
    assert_eq!(found, vec!["a.md", "b.md", "d.md"]);
    assert_eq!(merged.as_rows()[0].outlinks()[0].target(), "new");
}

#[test]
fn unchanged_plans_hand_their_state_back() {
    let files = || sorted(vec![sized("a.md", 7)]);
    let plan = RefreshPlan::new(files(), files(), links(&[("a.md", &["a.md"])]));
    assert!(plan.is_empty());
    let (kept, map) = plan.into_unchanged();
    assert_eq!(file_texts(kept.as_rows()), vec!["a.md"]);
    assert_eq!(texts(map.inlinks_of(&path("a.md"))), vec!["a.md"]);
}

#[test]
fn patching_and_rebuilding_agree() {
    let before = || {
        sorted(vec![
            sized("a.md", 1),
            sized("b.md", 7),
            sized("c.md", 7),
        ])
    };
    let after = || {
        sorted(vec![
            sized("a.md", 2),
            sized("b.md", 7),
            sized("c.md", 7),
        ])
    };
    let stored = || {
        SortedByPath::sorted(vec![
            note("a.md", "[[b]]"),
            note("b.md", "[[c]]"),
            note("c.md", "# C"),
        ])
    };
    let modified = || SortedByPath::sorted(vec![note("a.md", "[[c]]")]);
    let old_links = || InlinkMap::new(stored().as_rows(), &before());

    let plan = RefreshPlan::new(after(), before(), old_links());
    assert!(plan.is_paths_unchanged());
    assert_eq!(file_texts(plan.upserted_files()), vec!["a.md"]);
    let patched = plan.patch(modified());
    assert!(patched.needs_stored_notes());
    assert_eq!(note_paths(&patched.notes_to_upsert()), vec!["a.md"]);

    let rebuilt = RefreshPlan::new(after(), before(), old_links()).rebuild(modified(), stored());
    assert!(!rebuilt.needs_stored_notes());
    assert_eq!(patched.report(), rebuilt.report());
    assert_eq!(patched.report(), RefreshReport::new(1, 0, 2));

    let reconciled =
        RefreshPlan::new(after(), before(), old_links()).reconcile(modified(), stored());
    assert!(reconciled.needs_stored_notes());
    assert_eq!(reconciled.report(), patched.report());

    let one = patched.into_index(stored());
    let two = rebuilt.into_index(SortedByPath::sorted(Vec::new()));
    for (a, b) in one.entries().iter().zip(two.entries()) {
        assert!(a.file().same(b.file()));
        assert_eq!(texts(a.inlinks()), texts(b.inlinks()));
        assert_eq!(
            a.note().map(|n| n.outlinks().len()),
            b.note().map(|n| n.outlinks().len())
        );
    }
    assert_eq!(texts(one.entries()[2].inlinks()), vec!["a.md", "b.md"]);
}

#[test]
fn added_files_change_the_paths() {
    let plan = RefreshPlan::new(
        sorted(vec![sized("a.md", 7), sized("b.md", 7)]),
        sorted(vec![sized("a.md", 7)]),
        InlinkMap::default(),
    );
    assert!(!plan.is_paths_unchanged());
    assert!(!plan.is_empty());

    let stored = SortedByPath::sorted(vec![note("a.md", "[[b]]")]);
    let modified = SortedByPath::sorted(vec![note("b.md", "# B")]);
    let update = plan.reconcile(modified, stored);
    assert!(!update.needs_stored_notes());
    let index = update.into_index(SortedByPath::sorted(Vec::new()));
    assert_eq!(texts(index.entries()[1].inlinks()), vec!["a.md"]);
}

// Errors.

fn fault(kind: IoFaultKind, text: &str) -> IoFault {
    IoFault::new(kind, text)
}

#[test]
fn io_includes_path_in_message() {
    let err = StoreError::Io {
        path: path("data.csv"),
        source: fault(IoFaultKind::PermissionDenied, "denied"),
    };
    assert!(err.message().contains("data.csv"));
}

#[test]
fn redb_includes_path_in_message() {
    let err = StoreError::Redb {
        path: path(".traces/index.redb"),
        detail: "Database already open. Cannot acquire lock.".to_owned(),
    };
    assert!(err.message().contains(".traces/index.redb"));
}

#[test]
fn serialize_includes_path_in_message() {
    let err = StoreError::Serialize {
        path: path("note.md"),
        detail: "Hit the end of buffer, expected more".to_owned(),
    };
    assert!(err.message().contains("note.md"));
}

#[test]
fn deserialize_includes_path_in_message() {
    let err = StoreError::Deserialize {
        path: path("note.md"),
        detail: "Hit the end of buffer, expected more".to_owned(),
    };
    assert!(err.message().contains("note.md"));
}

#[test]
fn note_parse_includes_path_in_message() {
    let err = IndexError::NoteParse {
        path: path("notes/bad.md"),
        source: fault(IoFaultKind::InvalidData, "not utf8"),
    };
    assert!(err.message().contains("bad.md"));
}

#[test]
fn inspect_message_starts_with_failed_to_inspect() {
    let err = IndexError::Inspect {
        path: path("notes/gone.md"),
        source: fault(IoFaultKind::NotFound, "missing"),
    };
    assert_eq!(err.message(), "failed to inspect notes/gone.md");
}

#[test]
fn inspect_exposes_the_io_source() {
    let err = IndexError::Inspect {
        path: path("notes/locked.md"),
        source: fault(IoFaultKind::PermissionDenied, "denied"),
    };
    let reported = err.source().expect("io source");
    assert_eq!(reported.kind(), IoFaultKind::PermissionDenied);
}

#[test]
fn store_display_matches_the_wrapped_store_error_with_no_added_text() {
    let store_error = StoreError::Redb {
        path: path(".traces/index.redb"),
        detail: "Database already open. Cannot acquire lock.".to_owned(),
    };
    let store_message = store_error.message();
    let wrapped = IndexError::Store(store_error);
    assert_eq!(wrapped.message(), store_message);
}

#[test]
fn walk_display_matches_the_wrapped_dir_tree_error_with_no_added_text() {
    let walk_error = DirTreeError::NodeInaccessible {
        path: path("orphan.md"),
        source: fault(IoFaultKind::Other, "boom"),
    };
    let walk_message = walk_error.message();
    let wrapped = IndexError::Walk(walk_error);
    assert_eq!(wrapped.message(), walk_message);
}

#[test]
fn store_source_skips_straight_to_the_store_errors_own_source() {
    let err = IndexError::Store(StoreError::Io {
        path: path("x"),
        source: fault(IoFaultKind::BrokenPipe, "pipe"),
    });
    let source = err.source().expect("source present");
    assert_eq!(source.kind(), IoFaultKind::BrokenPipe);
}

#[test]
fn walk_source_skips_straight_to_the_dir_tree_errors_own_source() {
    let err = IndexError::Walk(DirTreeError::NodeInaccessible {
        path: path("x"),
        source: fault(IoFaultKind::InvalidData, "bad"),
    });
    let source = err.source().expect("source present");
    assert_eq!(source.kind(), IoFaultKind::InvalidData);
}

#[test]
fn note_parse_source_returns_the_io_error() {
    let err = IndexError::NoteParse {
        path: path("x"),
        source: fault(IoFaultKind::InvalidData, "bad"),
    };
    let source = err.source().expect("source present");
    assert_eq!(source.kind(), IoFaultKind::InvalidData);
}

#[test]
fn store_error_converts_to_the_store_variant() {
    let store_error = StoreError::Io {
        path: path("x"),
        source: fault(IoFaultKind::Other, "boom"),
    };
    let converted: IndexError = store_error.into();
    assert!(matches!(converted, IndexError::Store(StoreError::Io { .. })));
}

#[test]
fn dir_tree_error_converts_to_the_walk_variant() {
    let walk_error = DirTreeError::NodeInaccessible {
        path: path("x"),
        source: fault(IoFaultKind::Other, "boom"),
    };
    let converted: IndexError = walk_error.into();
    assert!(matches!(
        converted,
        IndexError::Walk(DirTreeError::NodeInaccessible { .. })
    ));
}

#[test]
fn missing_file_names_have_no_source() {
    let err = IndexError::Path(FileNameError::Missing);
    assert!(err.source().is_none());
    assert_eq!(err.message(), "path has no file name");
}
