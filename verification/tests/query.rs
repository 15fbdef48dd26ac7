//! Queries: field paths, filters, order and rendering.

use traces::field::suggest::closest_match;
use traces::file::FileBase;
use traces::index::inlinks::InlinkMap;
use traces::index::sort::SortedByPath;
use traces::instant::DateTimeValue;
use traces::note::document::{parse_markdown, Note};
use traces::note::structure::{LinkType, Outlink};
use traces::note::texts::{parse_metadata_texts, scan_fields, scan_tags};
use traces::note::value::FieldValue;
use traces::number::{compare_bits, Number, NumberWords, Order};
use traces::path::FilePath;
use traces::query::error::QueryError;
use traces::query::field::{FieldPath, FileField, TaskField};
use traces::query::filter::{eval_contains, FilterExpr};
use traces::query::operators::{CompareOp, LogicalOp};
use traces::query::order::order_positions;
use traces::query::outcome::QueryOutcome;
use traces::query::record::{class_values, IndexRecord, QuerySource};
use traces::query::render::{escape_table_text, field_text, table_cell_text};
use traces::query::sort::{compare_field_values, fields_equal, sort_key_order, SortOrder};
use traces::query::token::filter_words;

fn number(value: f64) -> FieldValue {
    FieldValue::Number(Number::new(value.to_bits(), value.to_string()))
}

fn text(value: &str) -> FieldValue {
    FieldValue::String(value.to_owned())
}

fn words_of(words: &[String]) -> NumberWords {
    let mut numbers = NumberWords::new();
    for word in words {
        if let Ok(value) = word.parse::<f64>() {
            numbers.insert(word.clone(), Number::new(value.to_bits(), value.to_string()));
        }
    }
    numbers
}

fn note(at: &str, source: &str) -> Note {
    let texts = parse_metadata_texts(source);
    parse_markdown(FilePath::new(at), source)
        .with_inline_fields(scan_fields(&texts, &NumberWords::new()))
        .with_tags(scan_tags(&texts))
}

fn file(at: &str, source: &str) -> FileBase {
    FileBase::from_metadata(
        FilePath::new(at),
        None,
        DateTimeValue { seconds: 1_700_000_000, nanos: 0 },
        source.len() as u64,
    )
}

fn record(at: &str, source: &str) -> IndexRecord {
    IndexRecord::new(file(at, source), note(at, source))
}

fn outcome_for_files(files: &[(&str, &str)]) -> QueryOutcome {
    let mut ordered = files.to_vec();
    ordered.sort();
    let notes: Vec<Note> = ordered.iter().map(|(at, source)| note(at, source)).collect();
    let bases =
        SortedByPath::sorted(ordered.iter().map(|(at, source)| file(at, source)).collect());
    let links = InlinkMap::new(&notes, &bases);
    let records = ordered
        .iter()
        .map(|(at, source)| {
            let inlinks =
                links.inlinks_of(&FilePath::new(at)).iter().map(FilePath::copy).collect();
            record(at, source).with_inlinks(inlinks)
        })
        .collect();
    QueryOutcome::new(records)
}

fn outcome_for(source: &str) -> QueryOutcome {
    outcome_for_files(&[("note.md", source)])
}

fn filter(outcome: QueryOutcome, expr: &str) -> Result<QueryOutcome, QueryError> {
    let numbers = words_of(&filter_words(expr).unwrap_or_default());
    outcome.filter(expr, &numbers)
}

fn names(outcome: &QueryOutcome) -> Vec<String> {
    outcome.records().iter().map(|record| record.file().name().as_str().to_owned()).collect()
}

fn field(record: &IndexRecord, path: &str) -> FieldValue {
    record.field(path).expect("valid path")
}

fn is_unknown_path<T>(result: Result<T, QueryError>, expected: &str, hint: Option<&str>) -> bool {
    matches!(
        result,
        Err(QueryError::UnknownFieldPath { path, suggestion })
            if path == expected && suggestion.as_deref() == hint
    )
}

// Sources.

fn class_source(class_field: &str, class: &str) -> QuerySource {
    QuerySource::Class {
        class_field: class_field.to_owned(),
        classes: vec![class.to_owned()],
    }
}

fn is_match(source: &QuerySource, at: &str, content: &str) -> bool {
    source.is_match(&file(at, content), &note(at, content))
}

#[test]
fn returns_true_for_all_source() {
    assert!(is_match(&QuerySource::All, "a.md", "# A"));
}

#[test]
fn returns_true_when_note_has_matching_or_sub_tag() {
    let content = "Tracked in #projects/active.";
    assert!(is_match(&QuerySource::Tag("#projects".to_owned()), "a.md", content));
    assert!(!is_match(&QuerySource::Tag("#books".to_owned()), "a.md", content));
}

#[test]
fn returns_true_when_file_is_under_folder_source() {
    let at = "projects/active/task.md";
    assert!(is_match(&QuerySource::Folder(FilePath::new("projects")), at, "# Task"));
    assert!(!is_match(&QuerySource::Folder(FilePath::new("archive")), at, "# Task"));
}

#[test]
fn returns_true_when_note_class_is_in_the_match_set() {
    let content = "---\nclass: book\n---\n# A";
    assert!(is_match(&class_source("class", "book"), "a.md", content));
    assert!(!is_match(&class_source("class", "movie"), "a.md", content));
}

#[test]
fn matches_any_class_of_a_multi_class_note() {
    let content = "---\nclass: [book, movie]\n---\n# A";
    assert!(is_match(&class_source("class", "movie"), "a.md", content));
    assert_eq!(class_values(&note("a.md", content), "class"), vec!["book", "movie"]);
}

#[test]
fn reads_the_class_from_the_configured_field() {
    let content = "---\nkind: book\n---\n# A";
    assert!(is_match(&class_source("kind", "book"), "a.md", content));
    assert!(!is_match(&class_source("class", "book"), "a.md", content));
}

#[test]
fn returns_false_when_note_has_no_class_field() {
    assert!(!is_match(&class_source("class", "book"), "a.md", "# A"));
}

#[test]
fn returns_false_when_class_value_is_not_a_string() {
    assert!(!is_match(&class_source("class", "5"), "a.md", "---\nclass: 5\n---\n# A"));
}

#[test]
fn selects_the_expected_source_variant() {
    assert!(matches!(QuerySource::from_flag(None), QuerySource::All));
    assert!(matches!(
        QuerySource::from_flag(Some("#projects")),
        QuerySource::Tag(tag) if tag == "#projects"
    ));
    assert!(matches!(
        QuerySource::from_flag(Some("books")),
        QuerySource::Folder(folder) if folder.to_text() == "books"
    ));
}

// Records.

#[test]
fn accessors_return_file_record_and_note() {
    let base = file("a.md", "Filed under #tag.");
    let built = IndexRecord::new(base.copy(), note("a.md", "Filed under #tag."));
    assert!(built.file().same(&base));
    assert_eq!(built.note().path().to_text(), "a.md");
    assert_eq!(built.note().tags()[0].as_str(), "#tag");
}

#[test]
fn with_task_sets_task_completed_and_task_text() {
    let built = record("a.md", "body").with_task(true, "Buy milk");
    assert_eq!(built.task_completed(), Some(true));
    assert_eq!(built.task_text(), Some("Buy milk"));
}

#[test]
fn task_accessors_return_none_for_page_level_records() {
    let built = record("a.md", "body");
    assert_eq!(built.task_completed(), None);
    assert_eq!(built.task_text(), None);
}

#[test]
fn with_inlinks_sets_the_inlinks_accessor() {
    let built = record("a.md", "body").with_inlinks(vec![FilePath::new("b.md")]);
    assert_eq!(built.inlinks().len(), 1);
    assert_eq!(built.inlinks()[0].to_text(), "b.md");
}

#[test]
fn file_paths_are_shown_as_they_were_written() {
    let outcome = outcome_for_files(&[("notes//./todo.md", "")]);
    let row = outcome.get(0).expect("record");
    assert!(field(row, "file.path").equals(&text("notes//./todo.md")));
    assert!(field(row, "file.folder").equals(&text("notes")));
}

#[test]
fn code_holds_no_fields_and_no_tags() {
    let source = "---\nkey: '#front'\n---\nreal:: 1 #real `#code` `[c:: 2]`\n\n```\nfake:: 3\n#block\n```\n";
    let found = note("a.md", source);
    let keys: Vec<&str> = found.inline_fields().iter().map(|field| field.key().name()).collect();
    assert_eq!(keys, vec!["real"]);
    let tags: Vec<&str> = found.tags().iter().map(|tag| tag.as_str()).collect();
    assert_eq!(tags, vec!["#real"]);
}

#[test]
fn resolves_file_path_name_folder_and_size() {
    let outcome = outcome_for_files(&[("notes/todo.md", "body")]);
    let row = outcome.get(0).expect("record");
    assert!(field(row, "file.path").equals(&text("notes/todo.md")));
    assert!(field(row, "file.name").equals(&text("todo")));
    assert!(field(row, "file.folder").equals(&text("notes")));
    assert!(field(row, "file.size").equals(&number(4.0)));
}

#[test]
fn resolves_dataview_style_time_accessors_from_file_record() {
    let base = FileBase::from_metadata(
        FilePath::new("note.md"),
        Some(DateTimeValue { seconds: 86_400, nanos: 0 }),
        DateTimeValue { seconds: 1_700_000_000, nanos: 0 },
        4,
    );
    let row = IndexRecord::new(base, note("note.md", "body"));
    let date = |value: &str| FieldValue::Date(value.to_owned());
    assert!(field(&row, "file.mtime").equals(&date("2023-11-14T22:13:20")));
    assert!(field(&row, "file.mdate").equals(&date("2023-11-14")));
    assert!(field(&row, "file.ctime").equals(&date("1970-01-02T00:00:00")));
    assert!(field(&row, "file.cdate").equals(&date("1970-01-02")));
    assert!(field(&row, "file.created_at").equals(&field(&row, "file.ctime")));
    assert!(field(&row, "file.modified_at").equals(&field(&row, "file.mtime")));
}

#[test]
fn resolves_frontmatter_and_inline_fields_by_key() {
    let outcome = outcome_for("---\nrating: 5\n---\nStatus:: Draft");
    let row = outcome.get(0).expect("record");
    assert!(field(row, "rating").equals(&number(5.0)));
    assert!(field(row, "Status").equals(&text("Draft")));
}

#[test]
fn frontmatter_field_takes_precedence_over_same_key_inline_field() {
    let outcome = outcome_for("---\nstatus: Approved\n---\nstatus:: Draft");
    let row = outcome.get(0).expect("record");
    assert!(field(row, "status").equals(&text("Approved")));
}

#[test]
fn resolves_tags_as_a_list_of_tag_strings() {
    let outcome = outcome_for("Filed under #book #read");
    let row = outcome.get(0).expect("record");
    assert!(field(row, "tags").equals(&FieldValue::List(vec![text("#book"), text("#read")])));
}

#[test]
fn resolves_inlinks_as_a_list_of_linking_note_paths() {
    let outcome = outcome_for_files(&[
        ("target.md", "# Target"),
        ("a.md", "[[target]]"),
        ("b.md", "[[target]]"),
    ]);
    let row = outcome
        .records()
        .iter()
        .find(|row| row.file().path().same(&FilePath::new("target.md")))
        .expect("target record");
    assert!(field(row, "inlinks").equals(&FieldValue::List(vec![text("a.md"), text("b.md")])));
}

#[test]
fn resolves_inlinks_as_an_empty_list_when_nothing_links_to_the_note() {
    let outcome = outcome_for("No inbound links here.");
    let row = outcome.get(0).expect("record");
    assert!(field(row, "inlinks").equals(&FieldValue::List(Vec::new())));
}

#[test]
fn missing_field_resolves_to_null() {
    let outcome = outcome_for("body, no frontmatter");
    assert!(field(outcome.get(0).expect("record"), "no_such_field").is_null());
}

const MALFORMED: [&str; 10] = [
    "",
    "file",
    "file.",
    "file.bogus",
    "file.name.extra",
    "task",
    "task.",
    "task.bogus",
    "task.completed.extra",
    "a.b",
];

#[test]
fn rejects_malformed_field_paths() {
    let outcome = outcome_for("body");
    let row = outcome.get(0).expect("record");
    for path in MALFORMED {
        assert!(is_unknown_path(row.field(path), path, None), "{path}");
    }
}

#[test]
fn resolves_task_completed_and_task_text_on_task_rows() {
    let row = record("note.md", "body").with_task(true, "Buy milk");
    assert!(field(&row, "task.completed").equals(&FieldValue::Bool(true)));
    assert!(field(&row, "task.text").equals(&text("Buy milk")));
}

#[test]
fn task_fields_resolve_to_null_on_page_level_records() {
    let row = record("note.md", "body");
    assert!(field(&row, "task.completed").is_null());
    assert!(field(&row, "task.text").is_null());
}

// Field paths.

#[test]
fn names_round_trip_through_parse() {
    for name in FileField::accessor_names() {
        assert!(FileField::parse(name).is_some(), "{name} should parse");
    }
}

#[test]
fn field_rejects_an_unknown_accessor_name() {
    assert!(FileField::parse("bogus").is_none());
}

#[test]
fn rejects_an_unknown_accessor_name() {
    assert!(TaskField::parse("bogus").is_none());
}

#[test]
fn parses_completed_and_text() {
    assert_eq!(TaskField::parse("completed"), Some(TaskField::Completed));
    assert_eq!(TaskField::parse("text"), Some(TaskField::Text));
}

#[test]
fn accessor_names_round_trip_through_parse() {
    for name in TaskField::accessor_names() {
        assert!(TaskField::parse(name).is_some(), "{name} should parse");
    }
}

fn closest<'a>(candidates: &[&'a str], input: &str) -> Option<&'a str> {
    closest_match(candidates, input).map(|at| candidates[at])
}

#[test]
fn closest_accessor_matches_within_the_half_length_threshold() {
    assert_eq!(closest(&["path", "name", "folder"], "nam"), Some("name"));
}

#[test]
fn closest_accessor_rejects_a_match_past_the_threshold() {
    assert_eq!(closest(&["name"], "na"), None);
}

#[test]
fn closest_accessor_returns_none_for_an_empty_candidate_list() {
    assert_eq!(closest(&[], "name"), None);
}

#[test]
fn closest_accessor_breaks_ties_by_iteration_order() {
    assert_eq!(closest(&["cat", "bat"], "mat"), Some("cat"));
}

#[test]
fn parses_a_file_accessor() {
    assert!(matches!(FieldPath::parse("file.name"), Ok(FieldPath::File(FileField::Name))));
}

#[test]
fn parses_a_task_accessor() {
    assert!(matches!(
        FieldPath::parse("task.completed"),
        Ok(FieldPath::Task(TaskField::Completed))
    ));
}

#[test]
fn parses_tags_as_the_tags_variant() {
    assert!(matches!(FieldPath::parse("tags"), Ok(FieldPath::Tags)));
}

#[test]
fn parses_inlinks_as_the_inlinks_variant() {
    assert!(matches!(FieldPath::parse("inlinks"), Ok(FieldPath::Inlinks)));
}

#[test]
fn parses_a_bare_key_as_metadata() {
    assert!(matches!(
        FieldPath::parse("rating"),
        Ok(FieldPath::Metadata(key)) if key == "rating"
    ));
}

#[test]
fn rejects_malformed_paths() {
    for path in MALFORMED {
        assert!(is_unknown_path(FieldPath::parse(path), path, None), "{path}");
    }
}

#[test]
fn suggests_the_closest_file_accessor_for_a_typo() {
    assert!(is_unknown_path(FieldPath::parse("file.nam"), "file.nam", Some("file.name")));
}

#[test]
fn suggests_the_closest_task_accessor_for_a_typo() {
    assert!(is_unknown_path(
        FieldPath::parse("task.complete"),
        "task.complete",
        Some("task.completed")
    ));
}

#[test]
fn no_suggestion_for_an_unrelated_unknown_accessor() {
    assert!(is_unknown_path(FieldPath::parse("file.bogus"), "file.bogus", None));
}

// Errors.

#[test]
fn unknown_field_path_formats_display_message() {
    let error = QueryError::UnknownFieldPath { path: "file.bogus".to_owned(), suggestion: None };
    assert_eq!(
        error.message(),
        "invalid field path \"file.bogus\"; expected `file.<field>` (path, name, folder, \
         size, ctime, cdate, mtime, mdate), `task.<field>` (completed, text), or a single \
         frontmatter, inline field, or `tags` name"
    );
}

#[test]
fn unknown_field_path_appends_a_did_you_mean_suggestion_when_built_with_one() {
    let error = QueryError::unknown_field_path("file.nam", Some("file.name"));
    assert_eq!(
        error.message(),
        "invalid field path \"file.nam\"; expected `file.<field>` (path, name, folder, \
         size, ctime, cdate, mtime, mdate), `task.<field>` (completed, text), or a single \
         frontmatter, inline field, or `tags` name (did you mean `file.name`?)"
    );
}

#[test]
fn unparsable_filter_expression_formats_display_message() {
    let error = QueryError::unparsable_filter("rating >");
    assert_eq!(
        error.message(),
        "invalid filter expression \"rating >\"; expected `<field> <op> <value>` with op \
         one of ==, !=, >=, <=, >, < and value a quoted string, number, or boolean"
    );
}

#[test]
fn negative_limit_formats_display_message() {
    let error = QueryError::NegativeLimit { n: -5 };
    assert_eq!(error.message(), "invalid limit -5; expected a non-negative row count");
}

#[test]
fn task_list_on_page_records_formats_display_message() {
    assert_eq!(
        QueryError::TaskListOnPageRecords.message(),
        "task_list requires task-level records from the `tasks` namespace; got page-level \
         records with no task fields"
    );
}

#[test]
fn table_column_mismatch_formats_display_message() {
    let error = QueryError::TableColumnMismatch { headers: 2, columns: 1 };
    assert_eq!(
        error.message(),
        "table headers (2) and columns (1) must have the same length"
    );
}

// Operators and order.

#[test]
fn compare_op_is_satisfied_by() {
    let num_5 = number(5.0);
    let num_10 = number(10.0);

    assert!(CompareOp::Eq.is_satisfied_by(&num_5, &num_5));
    assert!(!CompareOp::Eq.is_satisfied_by(&num_5, &num_10));

    assert!(CompareOp::Ne.is_satisfied_by(&num_5, &num_10));
    assert!(!CompareOp::Ne.is_satisfied_by(&num_5, &num_5));

    assert!(CompareOp::Lt.is_satisfied_by(&num_5, &num_10));
    assert!(!CompareOp::Lt.is_satisfied_by(&num_10, &num_5));

    assert!(CompareOp::Le.is_satisfied_by(&num_5, &num_5));
    assert!(CompareOp::Le.is_satisfied_by(&num_5, &num_10));

    assert!(CompareOp::Gt.is_satisfied_by(&num_10, &num_5));
    assert!(!CompareOp::Gt.is_satisfied_by(&num_5, &num_10));

    assert!(CompareOp::Ge.is_satisfied_by(&num_5, &num_5));
    assert!(CompareOp::Ge.is_satisfied_by(&num_10, &num_5));
}

#[test]
fn compare_op_parses_every_spelling() {
    assert_eq!(CompareOp::try_from("=="), Ok(CompareOp::Eq));
    assert_eq!(CompareOp::try_from("!="), Ok(CompareOp::Ne));
    assert_eq!(CompareOp::try_from(">="), Ok(CompareOp::Ge));
    assert_eq!(CompareOp::try_from("<="), Ok(CompareOp::Le));
    assert_eq!(CompareOp::try_from(">"), Ok(CompareOp::Gt));
    assert_eq!(CompareOp::try_from("<"), Ok(CompareOp::Lt));
    assert_eq!(CompareOp::try_from("invalid"), Err(()));
}

#[test]
fn logical_op_parses_every_spelling_case_insensitively() {
    assert_eq!(LogicalOp::try_from("&&"), Ok(LogicalOp::And));
    assert_eq!(LogicalOp::try_from("and"), Ok(LogicalOp::And));
    assert_eq!(LogicalOp::try_from("AND"), Ok(LogicalOp::And));
    assert_eq!(LogicalOp::try_from("||"), Ok(LogicalOp::Or));
    assert_eq!(LogicalOp::try_from("or"), Ok(LogicalOp::Or));
    assert_eq!(LogicalOp::try_from("OR"), Ok(LogicalOp::Or));
    assert_eq!(LogicalOp::try_from("invalid"), Err(()));
}

#[test]
fn default_is_ascending() {
    assert_eq!(SortOrder::default(), SortOrder::Ascending);
}

#[test]
fn only_descending_is_descending() {
    assert!(!SortOrder::Ascending.is_descending());
    assert!(SortOrder::Descending.is_descending());
}

#[test]
fn doubles_compare_by_their_bits() {
    let order = |a: f64, b: f64| compare_bits(a.to_bits(), b.to_bits());
    assert_eq!(order(-1.0, 1.0), Some(Order::Less));
    assert_eq!(order(-1.0, -2.0), Some(Order::Greater));
    assert_eq!(order(0.0, -0.0), Some(Order::Equal));
    assert_eq!(order(f64::NAN, 1.0), None);
    assert_eq!(order(f64::INFINITY, 1e300), Some(Order::Greater));
}

#[test]
fn whole_numbers_round_like_doubles() {
    let cases: [u64; 9] = [
        0,
        1,
        7,
        9_007_199_254_740_991,
        9_007_199_254_740_993,
        9_007_199_254_740_995,
        18_014_398_509_481_985,
        1 << 63,
        u64::MAX,
    ];
    for n in cases {
        let converted = Number::from_u64(n);
        assert_eq!(converted.bits(), (n as f64).to_bits(), "{n}");
        assert_eq!(converted.text(), (n as f64).to_string(), "{n}");
    }
}

#[test]
fn values_of_different_kinds_do_not_compare() {
    assert_eq!(compare_field_values(&number(1.0), &text("1")), None);
    assert_eq!(compare_field_values(&text("a"), &text("b")), Some(Order::Less));
    assert_eq!(
        compare_field_values(&FieldValue::Bool(false), &FieldValue::Bool(true)),
        Some(Order::Less)
    );
    assert!(fields_equal(&FieldValue::Date("2026-01-01".to_owned()), &text("2026-01-01")));
    assert!(!fields_equal(&number(1.0), &text("1")));
    assert_eq!(sort_key_order(&FieldValue::Null, &number(1.0), false), Order::Less);
    assert_eq!(sort_key_order(&FieldValue::Null, &number(1.0), true), Order::Greater);
}

#[test]
fn positions_are_ordered_stably() {
    let sort_keys = vec![number(2.0), number(1.0), FieldValue::Null, number(2.0), number(1.0)];
    assert_eq!(order_positions(&sort_keys, false), vec![2, 1, 4, 0, 3]);
    assert_eq!(order_positions(&sort_keys, true), vec![0, 3, 1, 4, 2]);
}

#[test]
fn orders_ascending_by_default() {
    let outcome =
        outcome_for_files(&[("b.md", "---\nrating: 7\n---"), ("a.md", "---\nrating: 3\n---")]);
    assert_eq!(names(&outcome.sort("rating", false).expect("valid sort")), vec!["a", "b"]);
}

#[test]
fn orders_descending_when_requested() {
    let outcome =
        outcome_for_files(&[("b.md", "---\nrating: 7\n---"), ("a.md", "---\nrating: 3\n---")]);
    assert_eq!(names(&outcome.sort("rating", true).expect("valid sort")), vec!["b", "a"]);
}

#[test]
fn missing_field_sorts_as_the_minimum_value() {
    let outcome = || {
        outcome_for_files(&[
            ("rated.md", "---\nrating: 3\n---"),
            ("unrated.md", "no frontmatter"),
        ])
    };
    let ascending = outcome().sort("rating", false).expect("valid sort");
    let descending = outcome().sort("rating", true).expect("valid sort");
    assert_eq!(names(&ascending), vec!["unrated", "rated"]);
    assert_eq!(names(&descending), vec!["rated", "unrated"]);
}

#[test]
fn ties_keep_original_relative_order() {
    let outcome =
        outcome_for_files(&[("a.md", "---\nrating: 5\n---"), ("b.md", "---\nrating: 5\n---")]);
    assert_eq!(names(&outcome.sort("rating", false).expect("valid sort")), vec!["a", "b"]);
}

#[test]
fn sort_rejects_malformed_field_path() {
    assert!(is_unknown_path(outcome_for("body").sort("file.bogus", false), "file.bogus", None));
}

// Filters.

fn rated_outcome() -> QueryOutcome {
    outcome_for_files(&[
        ("low.md", "---\nrating: 3\nstatus: draft\n---"),
        ("high.md", "---\nrating: 7\nstatus: done\n---"),
        ("unrated.md", "---\nstatus: done\n---"),
    ])
}

fn filtered_names(expr: &str) -> Vec<String> {
    names(&filter(rated_outcome(), expr).expect("valid filter"))
}

#[test]
fn keeps_only_matching_records() {
    let cases: [(&str, &[&str]); 7] = [
        ("rating > 5", &["high"]),
        ("rating >= 7", &["high"]),
        ("rating < 5", &["low"]),
        ("rating <= 3", &["low"]),
        ("rating == 7", &["high"]),
        ("status == \"done\"", &["high", "unrated"]),
        ("status != \"done\"", &["low"]),
    ];
    for (expr, expected) in cases {
        assert_eq!(filtered_names(expr), expected, "{expr}");
    }
}

#[test]
fn missing_field_never_matches_equality_or_ordering() {
    assert_eq!(filtered_names("rating > 0"), vec!["high", "low"]);
}

#[test]
fn missing_field_matches_not_equal() {
    assert_eq!(filtered_names("rating != 7"), vec!["low", "unrated"]);
}

#[test]
fn type_mismatch_never_matches_ordering_or_equality() {
    assert!(filtered_names("status > 5").is_empty());
}

#[test]
fn rejects_malformed_expressions() {
    let cases = [
        "rating",
        " > 5",
        "rating >",
        "status == done",
        "unknown(tags, \"#book\")",
        "contains(tags)",
    ];
    for expected in cases {
        let result = filter(rated_outcome(), expected);
        assert!(
            matches!(
                result,
                Err(QueryError::UnparsableFilterExpression { expr }) if expr == expected
            ),
            "{expected}"
        );
    }
}

#[test]
fn rejects_malformed_field_path_in_expression() {
    assert!(is_unknown_path(
        filter(rated_outcome(), "file.bogus == 1"),
        "file.bogus",
        None
    ));
}

#[test]
fn chains_across_multiple_filter_calls() {
    let done = filter(rated_outcome(), "status == \"done\"").expect("valid filter");
    let high = filter(done, "rating >= 7").expect("valid filter");
    assert_eq!(names(&high), vec!["high"]);
}

#[test]
fn equal_matches_a_date_field_against_a_string_literal() {
    let outcome = outcome_for("---\ndue: 2026-01-01\n---");
    let found = filter(outcome, "due == \"2026-01-01\"").expect("valid filter");
    assert_eq!(found.len(), 1);
}

#[test]
fn filters_with_null_literal() {
    assert_eq!(filtered_names("rating == null"), vec!["unrated"]);
    assert_eq!(filtered_names("rating != null"), vec!["high", "low"]);
}

#[test]
fn r_where_alias_filters_records_identically_to_filter() {
    let expr = "rating >= 7";
    let numbers = words_of(&filter_words(expr).expect("words"));
    let found = rated_outcome().r_where(expr, &numbers).expect("valid where");
    assert_eq!(names(&found), vec!["high"]);
}

#[test]
fn boolean_and_or_not_combinations() {
    assert_eq!(filtered_names("rating > 5 AND status == \"done\""), vec!["high"]);
    assert_eq!(
        filtered_names("rating == 3 OR status == \"done\""),
        vec!["high", "low", "unrated"]
    );
    assert_eq!(filtered_names("NOT status == \"done\""), vec!["low"]);
}

#[test]
fn nested_parentheses_override_precedence() {
    assert_eq!(
        filtered_names("(rating > 5 OR status == \"draft\") AND NOT rating == 3"),
        vec!["high"]
    );
}

#[test]
fn logical_op_spellings_do_not_swallow_identifier_prefixes() {
    let outcome = || outcome_for("---\norder: 5\nandrew: 3\n---");
    for expr in [
        "order == 5 and andrew == 3",
        "order == 5 && andrew == 3",
        "order == 999 || andrew == 3",
        "order == 999 or andrew == 3",
        "order == 5",
    ] {
        assert_eq!(filter(outcome(), expr).expect("valid filter").len(), 1, "{expr}");
    }
}

#[test]
fn contains_function_on_tags_and_string_fields() {
    let outcome = || {
        outcome_for_files(&[
            ("book.md", "---\ntitle: Rust Handbook\n---\nFiled under #book/fiction"),
            ("article.md", "---\ntitle: Async Guide\n---\nFiled under #article"),
        ])
    };
    let tag_match = filter(outcome(), "contains(tags, \"#book\")").expect("valid filter");
    assert_eq!(names(&tag_match), vec!["book"]);
    let title_match = filter(outcome(), "contains(title, \"Async\")").expect("valid filter");
    assert_eq!(names(&title_match), vec!["article"]);
}

#[test]
fn filtering_twice_changes_nothing_more() {
    let once = filter(rated_outcome(), "rating > 0").expect("valid filter");
    let expected = names(&once);
    let twice = filter(once, "rating > 0").expect("valid filter");
    assert_eq!(names(&twice), expected);
}

#[test]
fn two_filters_are_one_and_negation_keeps_the_rest() {
    let texts = [
        "rating > 5",
        "status == \"done\" or rating == 3",
        "not contains(status, \"done\")",
        " contains(status, \"d)\") ",
    ];
    let all = names(&rated_outcome());
    for first in texts {
        let kept = filtered_names(first);
        let others = filtered_names(&format!("NOT ({first})"));
        assert_eq!(kept.len() + others.len(), all.len());
        assert!(all.iter().all(|name| kept.contains(name) != others.contains(name)));
        for second in texts {
            let once = filter(rated_outcome(), first).expect("valid filter");
            let twice = filter(once, second).expect("valid filter");
            assert_eq!(names(&twice), filtered_names(&format!("({first}) AND ({second})")));
        }
    }
}

#[test]
fn expressions_match_single_records() {
    let numbers = words_of(&["5".to_owned()]);
    let expr = FilterExpr::parse("rating == 5", &numbers).expect("valid filter");
    assert!(expr.matches(&record("a.md", "---\nrating: 5\n---")));
    assert!(!expr.matches(&record("a.md", "body")));
}

#[test]
fn containment_looks_into_lists_and_texts() {
    let list = FieldValue::List(vec![text("a"), number(2.0)]);
    assert!(eval_contains(&list, &number(2.0)));
    assert!(!eval_contains(&list, &text("b")));
    assert!(eval_contains(&text("abc"), &text("bc")));
    assert!(!eval_contains(&FieldValue::Null, &text("a")));
}

#[test]
fn list_items_match_whole_or_nested() {
    let list = FieldValue::List(vec![text("audiobook"), text("#film/short")]);
    assert!(!eval_contains(&list, &text("book")));
    assert!(!eval_contains(&list, &text("audio")));
    assert!(eval_contains(&list, &text("audiobook")));
    assert!(eval_contains(&list, &text("#film")));
    assert!(!eval_contains(&list, &text("#fil")));
    assert!(!eval_contains(&list, &text("short")));
    assert!(eval_contains(&text("audiobook"), &text("book")));
}

// Limits, groups and flattening.

fn outcome_of_three() -> QueryOutcome {
    outcome_for_files(&[("a.md", "# A"), ("b.md", "# B"), ("c.md", "# C")])
}

#[test]
fn keeps_at_most_n_leading_records() {
    let limited = outcome_of_three().limit(2).expect("valid limit");
    assert_eq!(limited.len(), 2);
    assert_eq!(names(&limited), vec!["a", "b"]);
}

#[test]
fn n_at_or_above_length_keeps_every_record() {
    assert_eq!(outcome_of_three().limit(10).expect("valid limit").len(), 3);
}

#[test]
fn zero_yields_an_empty_outcome() {
    assert!(outcome_of_three().limit(0).expect("valid limit").is_empty());
}

#[test]
fn rejects_a_negative_limit() {
    assert!(matches!(
        outcome_of_three().limit(-1),
        Err(QueryError::NegativeLimit { n: -1 })
    ));
}

#[test]
fn clusters_records_with_equal_values_in_ascending_key_order() {
    let outcome = outcome_for_files(&[
        ("a.md", "---\ncategory: book\n---"),
        ("b.md", "---\ncategory: article\n---"),
        ("c.md", "---\ncategory: book\n---"),
    ]);
    let grouped = outcome.group_by("category").expect("valid group_by");
    let categories: Vec<String> =
        grouped.records().iter().map(|row| field_text(&field(row, "category"))).collect();
    assert_eq!(categories, vec!["article", "book", "book"]);
    assert_eq!(names(&grouped), vec!["b", "a", "c"]);
}

#[test]
fn query_rejects_malformed_field_path() {
    assert!(is_unknown_path(outcome_for("body").group_by("file.bogus"), "file.bogus", None));
    assert!(is_unknown_path(outcome_for("body").flatten("file.bogus"), "file.bogus", None));
}

#[test]
fn rejects_malformed_field_path() {
    assert!(is_unknown_path(
        outcome_for("body").table(&["Name"], &["file.bogus"]),
        "file.bogus",
        None
    ));
    assert!(is_unknown_path(outcome_for("body").list("file.bogus"), "file.bogus", None));
}

fn flattened_texts(outcome: &QueryOutcome, path: &str) -> Vec<String> {
    outcome.records().iter().map(|row| field_text(&field(row, path))).collect()
}

#[test]
fn explodes_a_list_field_into_one_row_per_element() {
    let outcome = outcome_for("---\ntitle: Multi\nauthors:\n  - Alice\n  - Bob\n---");
    let flattened = outcome.flatten("authors").expect("valid flatten");
    assert_eq!(flattened.len(), 2);
    assert_eq!(flattened_texts(&flattened, "authors"), vec!["Alice", "Bob"]);
    for row in flattened.records() {
        assert!(field(row, "title").equals(&text("Multi")));
    }
}

#[test]
fn empty_list_drops_the_record() {
    let flattened =
        outcome_for("---\nauthors: []\n---").flatten("authors").expect("valid flatten");
    assert!(flattened.is_empty());
}

#[test]
fn non_list_field_passes_through_unchanged() {
    let flattened = outcome_for("---\nrating: 5\n---").flatten("rating").expect("valid flatten");
    assert_eq!(flattened.len(), 1);
    assert!(field(flattened.get(0).expect("record"), "rating").equals(&number(5.0)));
}

#[test]
fn flattening_tags_yields_one_row_per_tag() {
    let flattened = outcome_for("Filed under #book #read").flatten("tags").expect("valid flatten");
    assert_eq!(flattened_texts(&flattened, "tags"), vec!["#book", "#read"]);
}

#[test]
fn chains_into_a_filter_over_the_flattened_value() {
    let flattened = outcome_for("---\nauthors:\n  - Alice\n  - Bob\n---")
        .flatten("authors")
        .expect("valid flatten");
    let found = filter(flattened, "authors == \"Bob\"").expect("valid filter");
    assert_eq!(found.len(), 1);
    assert!(field(found.get(0).expect("record"), "authors").equals(&text("Bob")));
}

#[test]
fn chains_multiple_flatten_calls_without_overwriting_prior_overrides() {
    let flattened =
        outcome_for("---\nauthors:\n  - Alice\n  - Bob\n---\nFiled under #book #read")
            .flatten("authors")
            .expect("valid flatten")
            .flatten("tags")
            .expect("valid flatten");
    assert_eq!(flattened.len(), 4);
    let pairs: Vec<(String, String)> = flattened
        .records()
        .iter()
        .map(|row| (field_text(&field(row, "authors")), field_text(&field(row, "tags"))))
        .collect();
    let pair = |a: &str, b: &str| (a.to_owned(), b.to_owned());
    assert_eq!(
        pairs,
        vec![
            pair("Alice", "#book"),
            pair("Alice", "#read"),
            pair("Bob", "#book"),
            pair("Bob", "#read"),
        ]
    );
}

// Rendering.

#[test]
fn renders_header_separator_and_one_row_per_record() {
    let outcome =
        outcome_for_files(&[("a.md", "---\nrating: 5\n---"), ("b.md", "---\nrating: 3\n---")]);
    let table = outcome
        .table(&["Name", "Rating"], &["file.name", "rating"])
        .expect("valid table");
    let lines: Vec<&str> = table.lines().collect();
    assert_eq!(lines.len(), 4);
    assert_eq!(lines.first(), Some(&"| Name | Rating |"));
    assert_eq!(lines.get(1), Some(&"|------|--------|"));
    assert!(lines.iter().skip(2).any(|line| line.contains('5')));
    assert!(lines.iter().skip(2).any(|line| line.contains('3')));
}

#[test]
fn renders_no_data_rows_for_an_empty_outcome() {
    let table = QueryOutcome::default().table(&["Name"], &["file.name"]).expect("valid table");
    assert_eq!(table, "| Name |\n|------|\n");
}

#[test]
fn escapes_pipe_characters_so_cell_values_cannot_break_table_rows() {
    let outcome = outcome_for("---\ntitle: \"A | B\"\n---");
    let table = outcome.table(&["Title"], &["title"]).expect("valid table");
    assert_eq!(table.lines().count(), 3);
    assert!(table.contains("A \\| B"));
}

#[test]
fn escapes_pipe_characters_in_headers_the_same_way_as_cell_values() {
    let table = QueryOutcome::default().table(&["A|B"], &["file.name"]).expect("valid table");
    assert_eq!(table, "| A\\|B |\n|------|\n");
}

#[test]
fn collapses_newlines_in_cell_values_to_keep_one_row_per_record() {
    let outcome = outcome_for("---\nnotes: |\n  line one\n  line two\n---");
    let table = outcome.table(&["Notes"], &["notes"]).expect("valid table");
    assert_eq!(table.lines().count(), 3);
}

#[test]
fn rejects_a_headers_columns_length_mismatch() {
    assert!(matches!(
        outcome_for("body").table(&["Name", "Rating"], &["file.name"]),
        Err(QueryError::TableColumnMismatch { headers: 2, columns: 1 })
    ));
}

#[test]
fn cells_hold_neither_bars_nor_breaks() {
    assert_eq!(escape_table_text("a|b\nc"), "a\\|b c");
    assert_eq!(table_cell_text(&text("x|y")), "x\\|y");
    assert_eq!(table_cell_text(&FieldValue::Null), "");
}

#[test]
fn renders_one_bullet_per_record() {
    let outcome =
        outcome_for_files(&[("a.md", "---\nrating: 5\n---"), ("b.md", "---\nrating: 3\n---")]);
    let list = outcome.list("rating").expect("valid list");
    assert_eq!(list.lines().count(), 2);
    assert!(list.lines().all(|line| line.starts_with("- ")));
    assert!(list.contains('5'));
    assert!(list.contains('3'));
}

#[test]
fn query_renders_an_empty_string_for_an_empty_outcome() {
    assert_eq!(QueryOutcome::default().list("rating").expect("valid list"), "");
}

#[test]
fn renders_an_empty_string_for_an_empty_outcome() {
    assert_eq!(QueryOutcome::default().task_list().expect("valid task_list"), "");
}

#[test]
fn renders_a_bool_field_as_true_or_false() {
    let list = outcome_for("---\nactive: true\n---").list("active").expect("valid list");
    assert_eq!(list, "- true\n");
}

#[test]
fn renders_a_missing_field_as_an_empty_bullet() {
    let list = outcome_for("body, no frontmatter").list("no_such_field").expect("valid list");
    assert_eq!(list, "- \n");
}

#[test]
fn renders_a_wikilink_field_as_its_target_path() {
    let outcome = outcome_for("---\nlink: \"[[Project Alpha|Alpha]]\"\n---");
    assert_eq!(outcome.list("link").expect("valid list"), "- Project Alpha\n");
    let link = FieldValue::Link(Outlink::new("a", "b", LinkType::Wikilink));
    assert_eq!(field_text(&link), "a");
}

#[test]
fn renders_an_unflattened_list_field_joined_by_comma_space() {
    let outcome = outcome_for("---\nauthors:\n  - Alice\n  - Bob\n---");
    assert_eq!(outcome.list("authors").expect("valid list"), "- Alice, Bob\n");
}

#[test]
fn renders_an_object_field_as_key_value_pairs_joined_by_comma_space() {
    let outcome = outcome_for("---\nmeta:\n  city: NYC\n  zip: 10001\n---");
    assert_eq!(outcome.list("meta").expect("valid list"), "- city: NYC, zip: 10001\n");
}

#[test]
fn renders_a_checkbox_per_task_matching_completion_state() {
    let source = "- [ ] Buy milk\n- [x] Walk dog\n";
    let page = record("a.md", source);
    let rows = page
        .note()
        .tasks()
        .iter()
        .map(|item| page.copy().with_task(item.is_completed(), item.text()))
        .collect();
    let rendered = QueryOutcome::new(rows).task_list().expect("valid task_list");
    assert_eq!(rendered, "- [ ] Buy milk\n- [x] Walk dog\n");
}

#[test]
fn rejects_page_level_records_with_no_task_fields() {
    assert!(matches!(
        outcome_for("# Just a Note").task_list(),
        Err(QueryError::TaskListOnPageRecords)
    ));
}

#[test]
fn reports_len_and_is_empty() {
    let empty = QueryOutcome::default();
    assert!(empty.is_empty());
    assert_eq!(empty.len(), 0);
    let outcome = outcome_for("# A");
    assert!(!outcome.is_empty());
    assert_eq!(outcome.len(), 1);
}

#[test]
fn get_returns_record_or_none() {
    let outcome = outcome_for("# A");
    assert!(outcome.get(0).is_some());
    assert!(outcome.get(1).is_none());
}

#[test]
fn iter_and_into_iterator_yield_records() {
    let outcome = outcome_for("# A");
    assert_eq!(outcome.records().iter().count(), 1);
    assert_eq!(outcome.into_records().len(), 1);
}
