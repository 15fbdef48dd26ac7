//! Paths, file names, file records, instants, settings and classes.

use traces::classes::{ClassEntry, ClassExpansionMode, ClassGraph};
use traces::env::{ceiling_dirs, IgnoredDirs};
use traces::fault::{IoFault, IoFaultKind};
use traces::file::{BaseName, FileBase, FileFormat, FileName, FileNameError};
use traces::instant::DateTimeValue;
use traces::names::{add_name, sorted_names};
use traces::path::FilePath;

fn name_of(text: &str) -> FileName {
    FileName::try_from(&FilePath::new(text)).expect("valid file name")
}

fn record_with(
    created_at: Option<DateTimeValue>,
    modified_at: DateTimeValue,
) -> FileBase {
    FileBase::from_metadata(FilePath::new("note.md"), created_at, modified_at, 0)
}

fn a_day_before(instant: DateTimeValue) -> DateTimeValue {
    DateTimeValue { seconds: instant.seconds - 86_400, nanos: instant.nanos }
}

#[test]
fn file_splits_the_name_from_the_extension() {
    let root = FilePath::new("/work");
    let file = FilePath::new("/work/notes/todo.md");
    let now = DateTimeValue::now();
    let record = FileBase::from_metadata(file.relative_to(&root), None, now, 7);

    assert_eq!(record.name().as_str(), "todo");
    assert_eq!(record.path().to_text(), "notes/todo.md");
    assert_eq!(record.folder().to_text(), "notes");
    assert_eq!(record.format(), FileFormat::Note);
    assert_eq!(record.size(), 7);
    assert!(record.modified_at() <= DateTimeValue::now());
}

#[test]
fn the_current_time_can_be_written() {
    let now = DateTimeValue::now();
    assert!(now.nanos < 1_000_000_000);
    let date = now.to_date_string().expect("a date");
    let whole = now.to_datetime_string().expect("a date and a time");
    assert!(whole.starts_with(&format!("{date}T")));
}

#[test]
fn fixture_times_can_be_written() {
    for file in [
        FileBase::for_test("a.png", FileFormat::Other),
        FileBase::note_for_test("a.md"),
        FileBase::note_with_size_for_test("a.md", 7),
    ] {
        assert!(file.modified_at().nanos < 1_000_000_000);
        assert!(file.modified_at().to_datetime_string().is_some());
    }
}

#[test]
fn file_returns_an_empty_folder_when_the_file_is_directly_under_root() {
    let root = FilePath::new("/work");
    let file = FilePath::new("/work/readme.md");
    let record = FileBase::from_metadata(file.relative_to(&root), None, DateTimeValue::now(), 2);

    assert_eq!(record.name().as_str(), "readme");
    assert_eq!(record.path().to_text(), "readme.md");
    assert_eq!(record.folder().to_text(), "");
    assert_eq!(record.format(), FileFormat::Note);
    assert_eq!(record.size(), 2);
}

#[test]
fn file_returns_none_when_creation_time_is_unsupported() {
    let record = record_with(None, DateTimeValue::now());
    assert_eq!(record.created_at(), None);
}

#[test]
fn file_returns_some_when_creation_time_is_reported() {
    let modified_at = DateTimeValue::now();
    let reported = a_day_before(modified_at);
    let record = record_with(Some(reported), modified_at);
    assert_eq!(record.created_at(), Some(reported));
}

#[test]
fn file_returns_created_when_present() {
    let modified_at = DateTimeValue::now();
    let reported = a_day_before(modified_at);
    let record = record_with(Some(reported), modified_at);
    assert_eq!(record.created_at_or_modified(), reported);
}

#[test]
fn file_falls_back_to_modified_when_created_is_none() {
    let modified_at = DateTimeValue::now();
    let record = record_with(None, modified_at);
    assert_eq!(record.created_at_or_modified(), modified_at);
}

#[test]
fn file_keeps_the_extension() {
    assert_eq!(name_of("todo.md").extension(), Some("md".to_owned()));
}

#[test]
fn file_fails_when_the_path_has_no_final_component() {
    let error = FileName::try_from(&FilePath::new(".."))
        .expect_err("path with no file name is rejected");
    assert!(matches!(error, FileNameError::Missing));
}

#[test]
fn file_strips_the_extension() {
    assert_eq!(BaseName::from(&name_of("todo.md")).as_str(), "todo");
}

#[test]
fn file_keeps_the_whole_name_when_there_is_no_extension() {
    assert_eq!(BaseName::from(&name_of("LICENSE")).as_str(), "LICENSE");
}

#[test]
fn file_treats_a_leading_dot_as_part_of_the_stem() {
    assert_eq!(BaseName::from(&name_of(".gitignore")).as_str(), ".gitignore");
}

#[test]
fn file_borrows_the_stem_without_the_extension() {
    let stem = BaseName::from_path(&FilePath::new("todo.md")).expect("valid path");
    assert_eq!(stem.as_str(), "todo");
}

#[test]
fn file_returns_none_when_the_path_has_no_final_component() {
    assert!(BaseName::from_path(&FilePath::new("..")).is_none());
}

#[test]
fn file_compares_equal_for_the_same_stem_across_different_paths() {
    let a = BaseName::from_path(&FilePath::new("a/todo.md")).expect("valid path");
    let b = BaseName::from_path(&FilePath::new("b/todo.markdown")).expect("valid path");
    assert_eq!(a.as_str(), b.as_str());
}

#[test]
fn classifies_by_extension() {
    let cases = [
        ("note.md", FileFormat::Note),
        ("note.MARKDOWN", FileFormat::Note),
        ("config.toml", FileFormat::Other),
        ("LICENSE", FileFormat::Other),
    ];
    for (file_name, expected) in cases {
        assert_eq!(FileFormat::from_name(&name_of(file_name)), expected);
    }
}

#[test]
fn file_name_keeps_the_extension() {
    assert_eq!(name_of("todo.md").extension(), Some("md".to_owned()));
}

#[test]
fn file_name_fails_when_the_path_has_no_final_component() {
    let error = FileName::try_from(&FilePath::new(".."))
        .expect_err("path with no file name is rejected");
    assert!(matches!(error, FileNameError::Missing));
    assert_eq!(error.message(), "path has no file name");
}

#[test]
fn file_name_strips_the_extension() {
    assert_eq!(BaseName::from(&name_of("todo.md")).as_str(), "todo");
}

#[test]
fn file_name_keeps_the_whole_name_when_there_is_no_extension() {
    assert_eq!(BaseName::from(&name_of("LICENSE")).as_str(), "LICENSE");
}

#[test]
fn file_name_treats_a_leading_dot_as_part_of_the_stem() {
    assert_eq!(BaseName::from(&name_of(".gitignore")).as_str(), ".gitignore");
}

#[test]
fn file_name_borrows_the_stem_without_the_extension() {
    let stem = BaseName::from_path(&FilePath::new("todo.md")).expect("valid path");
    assert_eq!(stem.as_str(), "todo");
}

#[test]
fn file_name_returns_none_when_the_path_has_no_final_component() {
    assert!(BaseName::from_path(&FilePath::new("..")).is_none());
}

#[test]
fn file_name_compares_equal_for_the_same_stem_across_different_paths() {
    let a = BaseName::from_path(&FilePath::new("a/todo.md")).expect("valid path");
    let b = BaseName::from_path(&FilePath::new("b/todo.markdown")).expect("valid path");
    assert_eq!(a.as_str(), b.as_str());
}

#[test]
fn fixtures_have_their_path_format_and_size() {
    let note = FileBase::note_for_test("a/b.md");
    assert_eq!(note.path().to_text(), "a/b.md");
    assert_eq!(note.format(), FileFormat::Note);
    assert_eq!(note.size(), 10);
    assert_eq!(note.folder().to_text(), "a");
    let sized = FileBase::note_with_size_for_test("c.md", 12);
    assert_eq!(sized.size(), 12);
    let other = FileBase::for_test("d.png", FileFormat::Other);
    assert_eq!(other.format(), FileFormat::Other);
    assert_eq!(other.name().as_str(), "d");
}

#[test]
fn files_are_the_same_when_nothing_differs() {
    let at = DateTimeValue { seconds: 5, nanos: 0 };
    let make = |size: u64| FileBase::from_metadata(FilePath::new("a.md"), None, at, size);
    assert!(make(1).same(&make(1)));
    assert!(!make(1).same(&make(2)));
    assert!(make(3).copy().same(&make(3)));
}

#[test]
fn instants_are_written_as_dates() {
    let start = DateTimeValue { seconds: 0, nanos: 0 };
    assert_eq!(start.to_date_string(), Some("1970-01-01".to_owned()));
    assert_eq!(start.to_datetime_string(), Some("1970-01-01T00:00:00".to_owned()));
    let later = DateTimeValue { seconds: 1_700_000_000, nanos: 5 };
    assert_eq!(later.to_date_string(), Some("2023-11-14".to_owned()));
    assert_eq!(later.to_datetime_string(), Some("2023-11-14T22:13:20".to_owned()));
}

#[test]
fn instants_out_of_range_have_no_date() {
    let far = DateTimeValue { seconds: i64::MAX, nanos: 0 };
    assert_eq!(far.to_date_string(), None);
    let odd = DateTimeValue { seconds: 0, nanos: 4_000_000_000 };
    assert_eq!(odd.to_datetime_string(), None);
}

#[test]
fn paths_drop_empty_and_current_components() {
    for (text, expected) in [
        ("a//b", vec!["a", "b"]),
        ("a/./b", vec!["a", "b"]),
        ("a/b/", vec!["a", "b"]),
        ("./a", vec![".", "a"]),
        ("/a", vec!["/", "a"]),
        ("", vec![]),
        ("../a", vec!["..", "a"]),
    ] {
        assert_eq!(FilePath::new(text).parts(), &expected);
    }
}

#[test]
fn paths_are_shown_as_they_were_written() {
    for text in ["a//b", "a/./b/", "./a", "/", "//a", "", "../a", "a/b/."] {
        let path = FilePath::new(text);
        assert_eq!(path.to_text(), text);
        assert_eq!(path.copy().to_text(), text);
    }
}

#[test]
fn parents_end_where_the_last_component_begins() {
    for (text, parent) in [
        ("a/b", Some("a")),
        ("a//b/", Some("a")),
        ("x//a/./b/.", Some("x//a")),
        ("/a", Some("/")),
        ("//a", Some("/")),
        ("a", Some("")),
        ("/", None),
        ("", None),
    ] {
        let found = FilePath::new(text).parent().map(|p| p.to_text());
        assert_eq!(found.as_deref(), parent);
    }
}

#[test]
fn paths_agree_with_the_standard_library() {
    let texts = [
        "a/b.md", "a//b.md", "a/./b.md/", "/a", "//a//b", "./x", "x/.", "..", "../a/b", "", "/", ".",
        "a/..", "a/b//", ".hidden", "a.b.c/d", "x//y/./z/",
    ];
    for text in texts {
        let path = FilePath::new(text);
        let known = std::path::Path::new(text);
        let parent = path.parent().map(|p| p.to_text());
        assert_eq!(parent.as_deref(), known.parent().and_then(|p| p.to_str()), "{text}");
        assert_eq!(path.file_name(), known.file_name().and_then(|n| n.to_str()), "{text}");
        let renamed = known.with_extension("md");
        assert_eq!(path.with_extension("md").to_text(), renamed.to_str().unwrap(), "{text}");
        for root in texts {
            let relative = known.strip_prefix(root).unwrap_or(known);
            let found = path.relative_to(&FilePath::new(root));
            assert_eq!(found.to_text(), relative.to_str().unwrap(), "{text} under {root}");
        }
    }
}

#[test]
fn paths_compare_by_component() {
    let a = FilePath::new("a/b.md");
    let b = FilePath::new("a-b.md");
    assert!(a.before(&b));
    assert!(!b.before(&a));
    assert!(a.same(&FilePath::new("a//b.md")));
}

#[test]
fn path_texts_read_back() {
    for text in ["a/b/c.md", "/etc/passwd", "../x", "", "x.tar.gz"] {
        let path = FilePath::new(text);
        assert!(FilePath::new(&path.to_text()).same(&path));
    }
}

#[test]
fn paths_know_their_parent_stem_and_extension() {
    let path = FilePath::new("a/b.tar.gz");
    assert_eq!(path.parent().map(|p| p.to_text()), Some("a".to_owned()));
    assert_eq!(path.file_name(), Some("b.tar.gz"));
    assert_eq!(path.stem(), Some("b.tar".to_owned()));
    assert_eq!(path.extension(), Some("gz".to_owned()));
    assert_eq!(path.with_extension("md").to_text(), "a/b.tar.md");
    assert!(path.starts_with(&FilePath::new("a")));
    assert!(!path.starts_with(&FilePath::new("b")));
    assert!(FilePath::empty().parent().is_none());
    assert!(FilePath::new("..").file_name().is_none());
}

#[test]
fn equal_paths_are_equal_files_however_written() {
    let file = |at: &str| {
        FileBase::from_metadata(
            FilePath::new(at),
            None,
            DateTimeValue { seconds: 1, nanos: 0 },
            0,
        )
    };
    assert!(file("a//b.md").same(&file("a/b.md")));
    assert!(!file("a/b.md").same(&file("b.md")));
}

#[test]
fn relative_paths_leave_other_roots_alone() {
    let root = FilePath::new("/work");
    assert_eq!(FilePath::new("/work/a/b.md").relative_to(&root).to_text(), "a/b.md");
    assert_eq!(FilePath::new("/home/a.md").relative_to(&root).to_text(), "/home/a.md");
}

#[test]
fn returns_true_for_default_ignored_dirs() {
    let dirs = IgnoredDirs::new(None);
    assert!(dirs.is_ignored_dir(".git"));
    assert!(dirs.is_ignored_dir("target"));
    assert!(dirs.is_ignored_dir("node_modules"));
    assert!(dirs.is_ignored_dir(".traces"));
}

#[test]
fn returns_false_for_regular_dirs() {
    let dirs = IgnoredDirs::new(None);
    assert!(!dirs.is_ignored_dir("src"));
    assert!(!dirs.is_ignored_dir("notes"));
}

#[test]
fn a_setting_adds_ignored_dirs() {
    let dirs = IgnoredDirs::new(Some("build: dist ,,venv"));
    assert!(dirs.is_ignored_dir("build"));
    assert!(dirs.is_ignored_dir("dist"));
    assert!(dirs.is_ignored_dir("venv"));
    assert!(dirs.is_ignored_dir(".git"));
    assert!(!dirs.is_ignored_dir(""));
    assert!(!dirs.is_ignored_dir(" dist "));
}

#[test]
fn ceilings_are_parted_by_colons() {
    let dirs = ceiling_dirs("/home:/srv/data");
    let texts: Vec<String> = dirs.iter().map(FilePath::to_text).collect();
    assert_eq!(texts, vec!["/home", "/srv/data"]);
}

#[test]
fn faults_keep_their_kind_and_text() {
    let fault = IoFault::new(IoFaultKind::NotFound, "gone");
    assert!(fault.is_not_found());
    assert_eq!(fault.text(), "gone");
    assert!(!IoFault::new(IoFaultKind::Other, "gone").is_not_found());
}

fn class(name: &str, extends: &[&str]) -> ClassEntry {
    ClassEntry {
        name: name.to_owned(),
        extends: extends.iter().map(|parent| (*parent).to_owned()).collect(),
    }
}

#[test]
fn expansion_modes_are_incremental() {
    let graph = ClassGraph::new(vec![
        class("thing", &[]),
        class("book", &["thing"]),
        class("sci_fi", &["book"]),
        class("space_opera", &["sci_fi"]),
    ]);
    let names = vec!["thing".to_owned()];
    let mut exact = ClassExpansionMode::Exact(Vec::new());
    let mut children = ClassExpansionMode::Children(Vec::new());
    let mut descendants = ClassExpansionMode::Descendants(Vec::new());

    graph.expand(&names, &mut exact);
    graph.expand(&names, &mut children);
    graph.expand(&names, &mut descendants);

    assert_eq!(exact.classes(), &["thing"]);
    assert_eq!(children.classes(), &["book", "thing"]);
    assert_eq!(descendants.classes(), &["book", "sci_fi", "space_opera", "thing"]);
}

#[test]
fn descendants_of_a_cycle_are_listed_once() {
    let graph = ClassGraph::new(vec![class("a", &["b"]), class("b", &["a"])]);
    let mut mode = ClassExpansionMode::Descendants(Vec::new());
    graph.expand(&vec!["a".to_owned()], &mut mode);
    assert_eq!(mode.classes(), &["a", "b"]);
}

#[test]
fn unknown_classes_expand_to_themselves() {
    let graph = ClassGraph::new(vec![class("thing", &[])]);
    let mut mode = ClassExpansionMode::Children(Vec::new());
    graph.expand(&vec!["other".to_owned()], &mut mode);
    assert_eq!(mode.classes(), &["other"]);
}

#[test]
fn names_are_sorted_and_unique() {
    let names = vec!["b".to_owned(), "a".to_owned(), "b".to_owned()];
    let mut sorted = sorted_names(&names);
    assert_eq!(sorted, vec!["a", "b"]);
    add_name(&mut sorted, "aa".to_owned());
    add_name(&mut sorted, "a".to_owned());
    assert_eq!(sorted, vec!["a", "aa", "b"]);
}
